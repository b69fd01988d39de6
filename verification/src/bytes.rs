//! Byte-string utilities shared by the object codec: lexicographic order,
//! hexadecimal encoding of digests, and decimal encoding of timestamps.

use vstd::prelude::*;

verus! {

// ---------------------------------------------------------------------------
// Lexicographic order on byte strings
// ---------------------------------------------------------------------------

/// `a` is less than or equal to `b` in lexicographic byte order.
pub open spec fn lex_leq(a: Seq<u8>, b: Seq<u8>) -> bool
    decreases a.len(),
{
    if a.len() == 0 {
        true
    } else if b.len() == 0 {
        false
    } else if a[0] < b[0] {
        true
    } else if a[0] > b[0] {
        false
    } else {
        lex_leq(a.drop_first(), b.drop_first())
    }
}

pub proof fn lemma_lex_leq_refl(a: Seq<u8>)
    ensures
        lex_leq(a, a),
    decreases a.len(),
{
    if a.len() > 0 {
        lemma_lex_leq_refl(a.drop_first());
    }
}

pub proof fn lemma_lex_leq_total(a: Seq<u8>, b: Seq<u8>)
    ensures
        lex_leq(a, b) || lex_leq(b, a),
    decreases a.len(),
{
    if a.len() > 0 && b.len() > 0 && a[0] == b[0] {
        lemma_lex_leq_total(a.drop_first(), b.drop_first());
    }
}

pub proof fn lemma_lex_leq_antisym(a: Seq<u8>, b: Seq<u8>)
    requires
        lex_leq(a, b),
        lex_leq(b, a),
    ensures
        a == b,
    decreases a.len(),
{
    if a.len() == 0 {
        assert(a =~= b);
    } else {
        lemma_lex_leq_antisym(a.drop_first(), b.drop_first());
        assert(a =~= b) by {
            assert(a.drop_first() =~= b.drop_first());
            assert(forall|i: int| 1 <= i < a.len() ==> a[i] == a.drop_first()[i - 1]);
        }
    }
}

pub proof fn lemma_lex_leq_trans(a: Seq<u8>, b: Seq<u8>, c: Seq<u8>)
    requires
        lex_leq(a, b),
        lex_leq(b, c),
    ensures
        lex_leq(a, c),
    decreases a.len(),
{
    if a.len() > 0 && b.len() > 0 && c.len() > 0 && a[0] == b[0] && b[0] == c[0] {
        lemma_lex_leq_trans(a.drop_first(), b.drop_first(), c.drop_first());
    }
}

/// If `a` and `b` agree on their first `m` bytes, their order is decided by
/// the remainders.
pub proof fn lemma_lex_leq_common_prefix(a: Seq<u8>, b: Seq<u8>, m: int)
    requires
        0 <= m <= a.len(),
        m <= b.len(),
        forall|j: int| 0 <= j < m ==> a[j] == b[j],
    ensures
        lex_leq(a, b) == lex_leq(a.skip(m), b.skip(m)),
    decreases m,
{
    if m > 0 {
        lemma_lex_leq_common_prefix(a.drop_first(), b.drop_first(), m - 1);
        assert(a.drop_first().skip(m - 1) =~= a.skip(m));
        assert(b.drop_first().skip(m - 1) =~= b.skip(m));
    } else {
        assert(a.skip(0) =~= a);
        assert(b.skip(0) =~= b);
    }
}

/// Three-way comparison of `a[k..]` and `b[k..]`.
/// Returns a negative, zero, or positive answer as in the usual convention.
pub fn lex_cmp_from(a: &Vec<u8>, b: &Vec<u8>, k: usize) -> (r: i8)
    requires
        k <= a@.len(),
        k <= b@.len(),
    ensures
        (r == 0) == (a@.skip(k as int) == b@.skip(k as int)),
        (r <= 0) == lex_leq(a@.skip(k as int), b@.skip(k as int)),
{
    let ghost av = a@.skip(k as int);
    let ghost bv = b@.skip(k as int);
    let mut i: usize = k;
    loop
        invariant
            k <= i <= a@.len(),
            i <= b@.len(),
            k <= b@.len(),
            av == a@.skip(k as int),
            bv == b@.skip(k as int),
            forall|j: int| k <= j < i ==> a@[j] == b@[j],
        decreases a@.len() - i,
    {
        proof {
            assert(forall|j: int| 0 <= j < i - k ==> av[j] == bv[j]);
            lemma_lex_leq_common_prefix(av, bv, i - k);
        }
        if i == a.len() {
            proof {
                assert(av.skip(i - k) =~= Seq::<u8>::empty());
            }
            if i == b.len() {
                proof {
                    assert(bv.skip(i - k) =~= Seq::<u8>::empty());
                    assert(av =~= bv);
                }
                return 0;
            } else {
                proof {
                    assert(bv.skip(i - k).len() > 0);
                    assert(av.len() != bv.len());
                }
                return -1;
            }
        }
        if i == b.len() {
            proof {
                assert(av.skip(i - k).len() > 0);
                assert(bv.skip(i - k) =~= Seq::<u8>::empty());
                assert(av.len() != bv.len());
            }
            return 1;
        }
        let x = a[i];
        let y = b[i];
        if x < y {
            proof {
                assert(av.skip(i - k)[0] == a@[i as int]);
                assert(bv.skip(i - k)[0] == b@[i as int]);
                assert(lex_leq(av.skip(i - k), bv.skip(i - k)));
                assert(av[i - k] != bv[i - k]);
            }
            return -1;
        }
        if x > y {
            proof {
                assert(av.skip(i - k)[0] == a@[i as int]);
                assert(bv.skip(i - k)[0] == b@[i as int]);
                assert(!lex_leq(av.skip(i - k), bv.skip(i - k)));
                assert(av[i - k] != bv[i - k]);
            }
            return 1;
        }
        i = i + 1;
    }
}

// ---------------------------------------------------------------------------
// Hexadecimal encoding of digests
// ---------------------------------------------------------------------------

/// The lowercase hexadecimal character for a value below 16.
pub open spec fn hex_char(n: u8) -> u8 {
    if n < 10 {
        (48 + n) as u8
    } else {
        (87 + n) as u8
    }
}

/// The value of one hexadecimal character; upper and lower case are accepted.
pub open spec fn hex_val(c: u8) -> Option<u8> {
    if 48 <= c <= 57 {
        Some((c - 48) as u8)
    } else if 97 <= c <= 102 {
        Some((c - 87) as u8)
    } else if 65 <= c <= 70 {
        Some((c - 55) as u8)
    } else {
        None
    }
}

/// Lowercase hexadecimal rendering of a byte string, two characters per byte.
pub open spec fn hex_of(b: Seq<u8>) -> Seq<u8>
    decreases b.len(),
{
    if b.len() == 0 {
        Seq::empty()
    } else {
        seq![hex_char(b[0] / 16), hex_char((b[0] % 16) as u8)] + hex_of(b.drop_first())
    }
}

/// Decodes a hexadecimal string of even length; `None` on any other input.
pub open spec fn hex_decode(s: Seq<u8>) -> Option<Seq<u8>>
    decreases s.len(),
{
    if s.len() == 0 {
        Some(Seq::empty())
    } else if s.len() == 1 {
        None
    } else {
        match (hex_val(s[0]), hex_val(s[1]), hex_decode(s.skip(2))) {
            (Some(h), Some(l), Some(rest)) => Some(seq![(h * 16 + l) as u8] + rest),
            _ => None,
        }
    }
}

pub proof fn lemma_hex_of_len(b: Seq<u8>)
    ensures
        hex_of(b).len() == 2 * b.len(),
    decreases b.len(),
{
    if b.len() > 0 {
        lemma_hex_of_len(b.drop_first());
    }
}

/// Every character of a hexadecimal rendering is a digit or a lowercase
/// letter; in particular it is neither NUL nor a newline.
pub proof fn lemma_hex_of_chars(b: Seq<u8>)
    ensures
        forall|i: int|
            0 <= i < hex_of(b).len() ==> (48 <= #[trigger] hex_of(b)[i] <= 57 || 97 <= hex_of(b)[i]
                <= 102),
    decreases b.len(),
{
    if b.len() > 0 {
        lemma_hex_of_chars(b.drop_first());
        let s = hex_of(b);
        assert forall|i: int|
            0 <= i < s.len() implies (48 <= #[trigger] s[i] <= 57 || 97 <= s[i] <= 102) by {
            if i >= 2 {
                assert(s[i] == hex_of(b.drop_first())[i - 2]);
            }
        }
    }
}

pub proof fn lemma_hex_decode_len(s: Seq<u8>)
    ensures
        hex_decode(s) matches Some(v) ==> v.len() == s.len() / 2,
    decreases s.len(),
{
    if s.len() >= 2 {
        lemma_hex_decode_len(s.skip(2));
    }
}

pub proof fn lemma_hex_round_trip(b: Seq<u8>)
    ensures
        hex_decode(hex_of(b)) == Some(b),
    decreases b.len(),
{
    if b.len() == 0 {
        assert(hex_of(b) =~= Seq::<u8>::empty());
    } else {
        lemma_hex_round_trip(b.drop_first());
        let s = hex_of(b);
        assert(s.skip(2) =~= hex_of(b.drop_first()));
        assert(hex_val(hex_char(b[0] / 16)) == Some((b[0] / 16) as u8));
        assert(hex_val(hex_char((b[0] % 16) as u8)) == Some((b[0] % 16) as u8));
        assert((b[0] / 16) * 16 + b[0] % 16 == b[0]) by (nonlinear_arith);
        assert(seq![b[0]] + b.drop_first() =~= b);
    }
}

/// Encodes a byte string as lowercase hexadecimal.
pub fn to_hex(b: &Vec<u8>) -> (r: Vec<u8>)
    ensures
        r@ == hex_of(b@),
{
    let mut r: Vec<u8> = Vec::new();
    let mut i: usize = 0;
    while i < b.len()
        invariant
            i <= b@.len(),
            r@ == hex_of(b@.take(i as int)),
        decreases b@.len() - i,
    {
        let x = b[i];
        let hi = x / 16;
        let lo = x % 16;
        r.push(if hi < 10 {
            48 + hi
        } else {
            87 + hi
        });
        r.push(if lo < 10 {
            48 + lo
        } else {
            87 + lo
        });
        proof {
            lemma_hex_of_append_byte(b@.take(i as int), b@[i as int]);
            assert(b@.take(i as int).push(b@[i as int]) =~= b@.take(i + 1));
        }
        i = i + 1;
    }
    proof {
        assert(b@.take(b@.len() as int) =~= b@);
    }
    r
}

proof fn lemma_hex_of_append_byte(b: Seq<u8>, x: u8)
    ensures
        hex_of(b.push(x)) == hex_of(b) + seq![hex_char(x / 16), hex_char((x % 16) as u8)],
    decreases b.len(),
{
    if b.len() == 0 {
        assert(b.push(x).drop_first() =~= Seq::<u8>::empty());
        assert(b.push(x)[0] == x);
        assert(hex_of(b.push(x)) == seq![hex_char(x / 16), hex_char((x % 16) as u8)] + hex_of(
            b.push(x).drop_first(),
        ));
        assert(hex_of(b.push(x).drop_first()) == Seq::<u8>::empty());
        assert(hex_of(b.push(x)) =~= hex_of(b) + seq![hex_char(x / 16), hex_char((x % 16) as u8)]);
    } else {
        lemma_hex_of_append_byte(b.drop_first(), x);
        assert(b.push(x).drop_first() =~= b.drop_first().push(x));
        assert(b.push(x)[0] == b[0]);
        let pair0 = seq![hex_char(b[0] / 16), hex_char((b[0] % 16) as u8)];
        let pairx = seq![hex_char(x / 16), hex_char((x % 16) as u8)];
        assert(hex_of(b.push(x)) == pair0 + hex_of(b.drop_first().push(x)));
        assert(hex_of(b.drop_first().push(x)) == hex_of(b.drop_first()) + pairx);
        assert(hex_of(b) == pair0 + hex_of(b.drop_first()));
        assert(pair0 + (hex_of(b.drop_first()) + pairx) =~= (pair0 + hex_of(b.drop_first()))
            + pairx);
        assert(hex_of(b.push(x)) == hex_of(b) + pairx);
    }
}

/// Decodes the hexadecimal characters `s[start..end]`; `None` if any
/// character is not hexadecimal.  The range must have even length.
pub fn from_hex_range(s: &Vec<u8>, start: usize, end: usize) -> (r: Option<Vec<u8>>)
    requires
        start <= end <= s@.len(),
        (end - start) % 2 == 0,
    ensures
        match r {
            Some(v) => hex_decode(s@.subrange(start as int, end as int)) == Some(v@),
            None => hex_decode(s@.subrange(start as int, end as int)) is None,
        },
{
    let ghost whole = s@.subrange(start as int, end as int);
    let mut r: Vec<u8> = Vec::new();
    let mut i: usize = start;
    proof {
        assert(whole.skip(0) =~= whole);
        match hex_decode(whole) {
            Some(t) => {
                assert(r@ + t =~= t);
            },
            None => {},
        }
    }
    while i < end
        invariant
            start <= i <= end <= s@.len(),
            (end - start) % 2 == 0,
            (i - start) % 2 == 0,
            whole == s@.subrange(start as int, end as int),
            match hex_decode(whole.skip(i - start)) {
                Some(t) => hex_decode(whole) == Some(r@ + t),
                None => hex_decode(whole) is None,
            },
        decreases end - i,
    {
        let ghost rest = whole.skip(i - start);
        let c0 = s[i];
        let c1 = s[i + 1];
        proof {
            assert(rest.len() >= 2);
            assert(rest[0] == c0);
            assert(rest[1] == c1);
            assert(rest.skip(2) =~= whole.skip(i - start + 2));
        }
        let h: u8 = if 48 <= c0 && c0 <= 57 {
            c0 - 48
        } else if 97 <= c0 && c0 <= 102 {
            c0 - 87
        } else if 65 <= c0 && c0 <= 70 {
            c0 - 55
        } else {
            proof {
                assert(hex_val(rest[0]) is None);
                assert(hex_decode(rest) is None);
            }
            return None;
        };
        let l: u8 = if 48 <= c1 && c1 <= 57 {
            c1 - 48
        } else if 97 <= c1 && c1 <= 102 {
            c1 - 87
        } else if 65 <= c1 && c1 <= 70 {
            c1 - 55
        } else {
            proof {
                assert(hex_val(rest[1]) is None);
                assert(hex_decode(rest) is None);
            }
            return None;
        };
        let ghost old_r = r@;
        r.push(h * 16 + l);
        proof {
            assert(hex_val(rest[0]) == Some(h));
            assert(hex_val(rest[1]) == Some(l));
            match hex_decode(rest.skip(2)) {
                Some(t2) => {
                    assert(hex_decode(rest) == Some(seq![(h * 16 + l) as u8] + t2));
                    assert(r@ + t2 =~= old_r + (seq![(h * 16 + l) as u8] + t2));
                },
                None => {
                    assert(hex_decode(rest) is None);
                },
            }
        }
        i = i + 2;
    }
    proof {
        assert(whole.skip(end - start) =~= Seq::<u8>::empty());
        assert(hex_decode(whole.skip(end - start)) == Some(Seq::<u8>::empty()));
        assert(r@ + Seq::<u8>::empty() =~= r@);
    }
    Some(r)
}

// ---------------------------------------------------------------------------
// Decimal encoding of timestamps
// ---------------------------------------------------------------------------

/// The decimal digits of a natural number, most significant first.
pub open spec fn dec_digits(n: nat) -> Seq<u8>
    decreases n,
{
    if n < 10 {
        seq![(48 + n) as u8]
    } else {
        dec_digits(n / 10) + seq![(48 + n % 10) as u8]
    }
}

/// The decimal rendering of a signed number, with a minus sign if negative.
pub open spec fn dec_of_int(t: int) -> Seq<u8> {
    if t < 0 {
        seq![45u8] + dec_digits((-t) as nat)
    } else {
        dec_digits(t as nat)
    }
}

pub open spec fn is_dec_digit(c: u8) -> bool {
    48 <= c <= 57
}

pub open spec fn all_dec_digits(s: Seq<u8>) -> bool {
    forall|i: int| 0 <= i < s.len() ==> is_dec_digit(#[trigger] s[i])
}

/// The value of a digit string, most significant first.
pub open spec fn digits_val(s: Seq<u8>) -> int
    decreases s.len(),
{
    if s.len() == 0 {
        0
    } else {
        digits_val(s.drop_last()) * 10 + (s.last() - 48)
    }
}

/// The value a signed 64-bit decimal parse yields: an optional sign, then at
/// least one digit, and the value must be in range.
pub open spec fn parse_i64(s: Seq<u8>) -> Option<int> {
    let neg = s.len() > 0 && s[0] == 45;
    let ds = if s.len() > 0 && (s[0] == 45 || s[0] == 43) {
        s.drop_first()
    } else {
        s
    };
    if ds.len() == 0 || !all_dec_digits(ds) {
        None
    } else {
        let v = if neg {
            -digits_val(ds)
        } else {
            digits_val(ds)
        };
        if i64::MIN <= v <= i64::MAX {
            Some(v)
        } else {
            None
        }
    }
}

pub proof fn lemma_digits_val_nonneg(s: Seq<u8>)
    requires
        all_dec_digits(s),
    ensures
        digits_val(s) >= 0,
    decreases s.len(),
{
    if s.len() > 0 {
        assert(all_dec_digits(s.drop_last())) by {
            assert(forall|i: int| 0 <= i < s.len() - 1 ==> s.drop_last()[i] == s[i]);
        }
        lemma_digits_val_nonneg(s.drop_last());
    }
}

/// Extending a digit string can only increase its value.
pub proof fn lemma_digits_val_prefix(s: Seq<u8>, j: int)
    requires
        all_dec_digits(s),
        0 <= j <= s.len(),
    ensures
        digits_val(s) >= digits_val(s.take(j)),
    decreases s.len(),
{
    if j < s.len() {
        assert(all_dec_digits(s.drop_last())) by {
            assert(forall|i: int| 0 <= i < s.len() - 1 ==> s.drop_last()[i] == s[i]);
        }
        lemma_digits_val_prefix(s.drop_last(), j);
        assert(s.drop_last().take(j) =~= s.take(j));
        lemma_digits_val_nonneg(s.drop_last());
        assert(digits_val(s.drop_last()) * 10 >= digits_val(s.drop_last())) by (nonlinear_arith)
            requires
                digits_val(s.drop_last()) >= 0,
        ;
    } else {
        assert(s.take(j) =~= s);
    }
}

/// Every character of a decimal rendering is a digit or a leading minus
/// sign; in particular none is NUL or a newline.
pub proof fn lemma_dec_digits_chars(n: nat)
    ensures
        forall|i: int| 0 <= i < dec_digits(n).len() ==> is_dec_digit(#[trigger] dec_digits(n)[i]),
        dec_digits(n).len() >= 1,
    decreases n,
{
    if n >= 10 {
        lemma_dec_digits_chars(n / 10);
    }
}

/// The digits of a natural number parse back to the same number.
pub proof fn lemma_dec_digits_val(n: nat)
    ensures
        digits_val(dec_digits(n)) == n,
        all_dec_digits(dec_digits(n)),
    decreases n,
{
    lemma_dec_digits_chars(n);
    if n < 10 {
        let s = dec_digits(n);
        assert(s.len() == 1);
        assert(s.drop_last() =~= Seq::<u8>::empty());
        assert(digits_val(s) == digits_val(s.drop_last()) * 10 + (s.last() - 48));
        assert(digits_val(s.drop_last()) == 0);
        assert(s.last() == (48 + n) as u8);
        assert((48 + n) as u8 == 48 + n);
    } else {
        lemma_dec_digits_val(n / 10);
        let s = dec_digits(n);
        assert(s.drop_last() =~= dec_digits(n / 10));
        assert(s.last() == (48 + n % 10) as u8);
        assert((48 + n % 10) as u8 == 48 + n % 10);
        assert((n / 10) * 10 + n % 10 == n) by (nonlinear_arith);
    }
}

/// A signed decimal rendering of an in-range value parses back exactly.
pub proof fn lemma_dec_round_trip(t: int)
    requires
        i64::MIN <= t <= i64::MAX,
    ensures
        parse_i64(dec_of_int(t)) == Some(t),
{
    if t < 0 {
        lemma_dec_digits_val((-t) as nat);
        lemma_dec_digits_chars((-t) as nat);
        let s = dec_of_int(t);
        assert(s[0] == 45);
        assert(s.drop_first() =~= dec_digits((-t) as nat));
    } else {
        lemma_dec_digits_val(t as nat);
        lemma_dec_digits_chars(t as nat);
        let s = dec_of_int(t);
        assert(s =~= dec_digits(t as nat));
        assert(s[0] != 45 && s[0] != 43);
    }
}

/// Renders the decimal digits of `n`.
pub fn u64_to_dec(n: u64) -> (r: Vec<u8>)
    ensures
        r@ == dec_digits(n as nat),
    decreases n,
{
    if n < 10 {
        let mut v: Vec<u8> = Vec::new();
        v.push(48 + (n as u8));
        proof {
            assert(v@ =~= dec_digits(n as nat));
        }
        v
    } else {
        let mut v = u64_to_dec(n / 10);
        v.push(48 + ((n % 10) as u8));
        proof {
            assert(v@ =~= dec_digits((n / 10) as nat) + seq![(48 + (n as nat) % 10) as u8]);
        }
        v
    }
}

/// Renders a signed 64-bit value in decimal.
pub fn i64_to_dec(t: i64) -> (r: Vec<u8>)
    ensures
        r@ == dec_of_int(t as int),
{
    if t >= 0 {
        u64_to_dec(t as u64)
    } else {
        let m: u64 = if t == i64::MIN {
            9223372036854775808u64
        } else {
            (-t) as u64
        };
        proof {
            assert(m as int == -(t as int));
        }
        let mut v: Vec<u8> = Vec::new();
        v.push(45);
        let mut ds = u64_to_dec(m);
        v.append(&mut ds);
        proof {
            assert(v@ =~= seq![45u8] + dec_digits(m as nat));
        }
        v
    }
}

/// Parses `s[start..end]` as a signed 64-bit decimal number, exactly as the
/// standard integer parser would: an optional sign, then at least one digit,
/// rejecting out-of-range values.
pub fn parse_dec_i64(s: &Vec<u8>, start: usize, end: usize) -> (r: Option<i64>)
    requires
        start <= end <= s@.len(),
    ensures
        match r {
            Some(v) => parse_i64(s@.subrange(start as int, end as int)) == Some(v as int),
            None => parse_i64(s@.subrange(start as int, end as int)) is None,
        },
{
    let ghost whole = s@.subrange(start as int, end as int);
    let mut i: usize = start;
    let mut neg = false;
    if i < end && (s[i] == 45 || s[i] == 43) {
        neg = s[i] == 45;
        i = i + 1;
    }
    let ghost dstart = i as int;
    let ghost ds = s@.subrange(dstart, end as int);
    proof {
        if whole.len() > 0 && (whole[0] == 45 || whole[0] == 43) {
            assert(whole.drop_first() =~= ds);
        } else {
            assert(whole =~= ds);
        }
    }
    if i == end {
        return None;
    }
    let bound: u64 = if neg {
        9223372036854775808u64
    } else {
        9223372036854775807u64
    };
    let mut acc: u64 = 0;
    while i < end
        invariant
            0 <= dstart <= i <= end <= s@.len(),
            dstart < end,
            start <= dstart <= start + 1,
            whole == s@.subrange(start as int, end as int),
            ds == s@.subrange(dstart, end as int),
            (dstart == start + 1) == (whole.len() > 0 && (whole[0] == 45 || whole[0] == 43)),
            neg == (whole.len() > 0 && whole[0] == 45),
            all_dec_digits(ds.take(i - dstart)),
            acc as int == digits_val(ds.take(i - dstart)),
            acc <= bound,
            bound == if neg {
                9223372036854775808u64
            } else {
                9223372036854775807u64
            },
        decreases end - i,
    {
        proof {
            if dstart == start + 1 {
                assert(whole.drop_first() =~= ds);
            } else {
                assert(whole =~= ds);
            }
        }
        let c = s[i];
        proof {
            assert(ds.len() == end - dstart);
            assert(0 <= i - dstart < ds.len());
            assert(ds[i - dstart] == s@.subrange(dstart, end as int)[i - dstart]);
            assert(s@.subrange(dstart, end as int)[i - dstart] == s@[i as int]);
        }
        if !(48 <= c && c <= 57) {
            proof {
                assert(!is_dec_digit(ds[i - dstart]));
                assert(!all_dec_digits(ds));
            }
            return None;
        }
        let d = (c - 48) as u64;
        if acc > (bound - d) / 10 {
            proof {
                lemma_overflow_bound(acc as int, d as int, bound as int);
                assert(ds.take(i - dstart).push(c) =~= ds.take(i + 1 - dstart));
                assert(digits_val(ds.take(i + 1 - dstart)) == acc * 10 + d) by {
                    assert(ds.take(i + 1 - dstart).drop_last() =~= ds.take(i - dstart));
                }
                if all_dec_digits(ds) {
                    lemma_digits_val_prefix(ds, i + 1 - dstart);
                    assert(digits_val(ds) > bound);
                    if neg {
                        assert(-digits_val(ds) < i64::MIN);
                    } else {
                        assert(digits_val(ds) > i64::MAX);
                    }
                }
            }
            return None;
        }
        proof {
            lemma_no_overflow_bound(acc as int, d as int, bound as int);
            assert(ds.take(i - dstart).push(c) =~= ds.take(i + 1 - dstart));
            assert(digits_val(ds.take(i + 1 - dstart)) == acc * 10 + d) by {
                assert(ds.take(i + 1 - dstart).drop_last() =~= ds.take(i - dstart));
            }
        }
        acc = acc * 10 + d;
        i = i + 1;
    }
    proof {
        assert(ds.take(end - dstart) =~= ds);
        if dstart == start + 1 {
            assert(whole.drop_first() =~= ds);
        } else {
            assert(whole =~= ds);
        }
        assert(ds.len() > 0);
    }
    if neg {
        if acc == bound {
            Some(i64::MIN)
        } else {
            Some(-(acc as i64))
        }
    } else {
        Some(acc as i64)
    }
}

proof fn lemma_overflow_bound(acc: int, d: int, bound: int)
    requires
        acc >= 0,
        0 <= d <= 9,
        bound >= 9,
        acc > (bound - d) / 10,
    ensures
        acc * 10 + d > bound,
{
    let q = (bound - d) / 10;
    let r = (bound - d) % 10;
    assert(bound - d == q * 10 + r && 0 <= r < 10) by (nonlinear_arith)
        requires
            bound - d >= 0 && q == (bound - d) / 10 && r == (bound - d) % 10,
    ;
    assert(acc * 10 >= (q + 1) * 10) by (nonlinear_arith)
        requires
            acc >= q + 1,
    ;
}

proof fn lemma_no_overflow_bound(acc: int, d: int, bound: int)
    requires
        acc >= 0,
        0 <= d <= 9,
        bound >= 9,
        acc <= (bound - d) / 10,
    ensures
        acc * 10 + d <= bound,
{
    let q = (bound - d) / 10;
    let r = (bound - d) % 10;
    assert(bound - d == q * 10 + r && 0 <= r < 10) by (nonlinear_arith)
        requires
            bound - d >= 0 && q == (bound - d) / 10 && r == (bound - d) % 10,
    ;
    assert(acc * 10 <= q * 10) by (nonlinear_arith)
        requires
            acc <= q,
    ;
}

// ---------------------------------------------------------------------------
// Scanning helpers
// ---------------------------------------------------------------------------

/// Whether two byte vectors hold the same bytes.
pub fn bytes_eq(a: &Vec<u8>, b: &Vec<u8>) -> (r: bool)
    ensures
        r == (a@ == b@),
{
    let r = a == b;
    proof {
        if r {
            assert(a@ =~= b@);
        }
    }
    r
}

/// The first position of `b` in `s` at or after `start`.
pub fn find_byte(s: &Vec<u8>, start: usize, b: u8) -> (r: Option<usize>)
    requires
        start <= s@.len(),
    ensures
        match r {
            Some(i) => start <= i < s@.len() && s@[i as int] == b && forall|j: int|
                start <= j < i ==> s@[j] != b,
            None => forall|j: int| start <= j < s@.len() ==> s@[j] != b,
        },
{
    let mut i: usize = start;
    while i < s.len()
        invariant
            start <= i <= s@.len(),
            forall|j: int| start <= j < i ==> s@[j] != b,
        decreases s@.len() - i,
    {
        if s[i] == b {
            return Some(i);
        }
        i = i + 1;
    }
    None
}

/// Whether `s[at..]` starts with `pat`.
pub fn match_at(s: &Vec<u8>, at: usize, pat: &Vec<u8>) -> (r: bool)
    requires
        at <= s@.len(),
    ensures
        r == (at + pat@.len() <= s@.len() && s@.subrange(
            at as int,
            at + pat@.len(),
        ) == pat@),
{
    if s.len() - at < pat.len() {
        return false;
    }
    let mut i: usize = 0;
    while i < pat.len()
        invariant
            i <= pat@.len(),
            at + pat@.len() <= s@.len(),
            s@.len() <= usize::MAX,
            forall|j: int| 0 <= j < i ==> s@[at + j] == pat@[j],
        decreases pat@.len() - i,
    {
        let j = at + i;
        if s[j] != pat[i] {
            proof {
                assert(s@.subrange(at as int, at + pat@.len())[i as int] != pat@[i as int]);
            }
            return false;
        }
        i = i + 1;
    }
    proof {
        assert(s@.subrange(at as int, at + pat@.len()) =~= pat@);
    }
    true
}

/// Copies `s[start..end]` into a fresh vector.
pub fn copy_range(s: &Vec<u8>, start: usize, end: usize) -> (r: Vec<u8>)
    requires
        start <= end <= s@.len(),
    ensures
        r@ == s@.subrange(start as int, end as int),
{
    let mut r: Vec<u8> = Vec::new();
    let mut i: usize = start;
    while i < end
        invariant
            start <= i <= end <= s@.len(),
            r@ == s@.subrange(start as int, i as int),
        decreases end - i,
    {
        r.push(s[i]);
        proof {
            assert(s@.subrange(start as int, i as int).push(s@[i as int]) =~= s@.subrange(
                start as int,
                i + 1,
            ));
        }
        i = i + 1;
    }
    r
}

} // verus!
