//! Numeric parsing: text to exact numbers, with explicit success and
//! failure. Every cell and label a table holds is validated through these
//! before the statistics run.
//!
//! The accepted grammar is an optional minus sign, then digits, then
//! optionally a decimal point followed by more digits; both digit groups
//! must be nonempty, and at most 18 digits in all keep every value exactly
//! representable in 64 bits.
use crate::rat::Frac;
use crate::rat::Rat;
use crate::rat::frac_eq;
use vstd::prelude::*;

verus! {

pub open spec fn is_digit(c: char) -> bool {
    48 <= c as int <= 57
}

pub open spec fn digit_val(c: char) -> int {
    c as int - 48
}

pub open spec fn all_digits(s: Seq<char>) -> bool {
    forall|i: int| 0 <= i < s.len() ==> is_digit(#[trigger] s[i])
}

/// The number a digit string denotes, most significant digit first.
pub open spec fn digits_val(s: Seq<char>) -> int
    decreases s.len(),
{
    if s.len() == 0 {
        0
    } else {
        digits_val(s.drop_last()) * 10 + digit_val(s.last())
    }
}

pub open spec fn pow10(k: nat) -> int
    decreases k,
{
    if k == 0 {
        1
    } else {
        10 * pow10((k - 1) as nat)
    }
}

/// How many leading characters of `s` are digits.
pub open spec fn prefix_digits_len(s: Seq<char>) -> int
    decreases s.len(),
{
    if s.len() == 0 {
        0
    } else if !is_digit(s[0]) {
        0
    } else {
        1 + prefix_digits_len(s.skip(1))
    }
}

/// The text after the optional minus sign.
pub open spec fn body_of(s: Seq<char>) -> Seq<char> {
    if s.len() > 0 && s[0] == '-' {
        s.skip(1)
    } else {
        s
    }
}

pub open spec fn sign_of(s: Seq<char>) -> int {
    if s.len() > 0 && s[0] == '-' {
        -1
    } else {
        1
    }
}

/// A whole number: an optional minus sign, then at least one digit.
pub open spec fn is_int_str(s: Seq<char>) -> bool {
    body_of(s).len() > 0 && all_digits(body_of(s))
}

pub open spec fn int_val(s: Seq<char>) -> int {
    sign_of(s) * digits_val(body_of(s))
}

/// How many digits stand after the decimal point; zero when there is no
/// point.
pub open spec fn frac_digits_len(s: Seq<char>) -> int {
    let b = body_of(s);
    let k = prefix_digits_len(b);
    if k == b.len() {
        0
    } else {
        b.len() - k - 1
    }
}

/// A decimal number: an optional minus sign, then digits, then optionally
/// a point with at least one digit after it.
pub open spec fn is_decimal_str(s: Seq<char>) -> bool {
    let b = body_of(s);
    let k = prefix_digits_len(b);
    &&& k > 0
    &&& (k == b.len() || {
        &&& b[k] == '.'
        &&& b.len() - k - 1 > 0
        &&& prefix_digits_len(b.skip(k + 1)) == b.len() - k - 1
    })
}

/// The exact value a decimal string denotes, as a fraction whose
/// denominator is the power of ten of its fractional digits.
pub open spec fn decimal_val(s: Seq<char>) -> Frac {
    let b = body_of(s);
    let k = prefix_digits_len(b);
    if k == b.len() {
        Frac { num: sign_of(s) * digits_val(b), den: 1 }
    } else {
        let m = (b.len() - k - 1) as nat;
        Frac {
            num: sign_of(s) * (digits_val(b.take(k)) * pow10(m) + digits_val(b.skip(k + 1))),
            den: pow10(m),
        }
    }
}

/// The values of a whole row of decimal texts.
pub open spec fn decimal_vals(row: Seq<String>) -> Seq<Frac> {
    row.map_values(|s: String| decimal_val(s@))
}

/// The digit scan stops at the first non-digit.
proof fn lemma_prefix_digits(s: Seq<char>)
    ensures
        0 <= prefix_digits_len(s) <= s.len(),
        forall|i: int| 0 <= i < prefix_digits_len(s) ==> is_digit(#[trigger] s[i]),
        prefix_digits_len(s) < s.len() ==> !is_digit(s[prefix_digits_len(s)]),
    decreases s.len(),
{
    if s.len() > 0 && is_digit(s[0]) {
        lemma_prefix_digits(s.skip(1));
        assert forall|i: int| 0 <= i < prefix_digits_len(s) implies is_digit(#[trigger] s[i]) by {
            if i > 0 {
                assert(s.skip(1)[i - 1] == s[i]);
                assert(is_digit(s.skip(1)[i - 1]));
            }
        }
        if prefix_digits_len(s) < s.len() {
            assert(s.skip(1)[prefix_digits_len(s.skip(1))] == s[prefix_digits_len(s)]);
        }
    }
}

/// A digit string's value is nonnegative and below the power of ten of its
/// length.
pub proof fn lemma_digits_val_bound(s: Seq<char>)
    requires
        all_digits(s),
    ensures
        0 <= digits_val(s) < pow10(s.len()),
    decreases s.len(),
{
    if s.len() > 0 {
        assert(forall|i: int| 0 <= i < s.drop_last().len() ==> s.drop_last()[i] == s[i]);
        lemma_digits_val_bound(s.drop_last());
    }
}

/// A short whole-number text denotes a small whole value: with no
/// fractional digits and at most two digits in the body, the value is a
/// fraction over 1 with magnitude below 100.
pub proof fn lemma_small_whole_value(s: Seq<char>)
    requires
        is_decimal_str(s),
        frac_digits_len(s) == 0,
        body_of(s).len() <= 2,
    ensures
        decimal_val(s).den == 1,
        -99 <= decimal_val(s).num <= 99,
{
    let b = body_of(s);
    let k = prefix_digits_len(b);
    assert(k == b.len());
    lemma_prefix_digits(b);
    assert(forall|i: int| 0 <= i < b.len() ==> is_digit(#[trigger] b[i]));
    lemma_digits_val_bound(b);
    lemma_pow10_mono(b.len(), 2);
    assert(pow10(0) == 1);
    assert(pow10(1) == 10);
    assert(pow10(2) == 100);
}

/// A decimal value is a well-formed fraction: its denominator, a power of
/// ten, is positive.
pub proof fn lemma_decimal_val_wf(s: Seq<char>)
    ensures
        crate::rat::frac_wf(decimal_val(s)),
{
    let b = body_of(s);
    let k = prefix_digits_len(b);
    if k != b.len() {
        lemma_pow10_pos((b.len() - k - 1) as nat);
    }
}

pub proof fn lemma_pow10_pos(k: nat)
    ensures
        pow10(k) >= 1,
    decreases k,
{
    if k > 0 {
        lemma_pow10_pos((k - 1) as nat);
    }
}

proof fn lemma_pow10_18()
    ensures
        pow10(18) == 1_000_000_000_000_000_000,
{
    assert(pow10(0) == 1);
    assert(pow10(1) == 10);
    assert(pow10(2) == 100);
    assert(pow10(3) == 1000);
    assert(pow10(4) == 10000);
    assert(pow10(5) == 100000);
    assert(pow10(6) == 1000000);
    assert(pow10(7) == 10000000);
    assert(pow10(8) == 100000000);
    assert(pow10(9) == 1000000000);
    assert(pow10(10) == 10000000000);
    assert(pow10(11) == 100000000000);
    assert(pow10(12) == 1000000000000);
    assert(pow10(13) == 10000000000000);
    assert(pow10(14) == 100000000000000);
    assert(pow10(15) == 1000000000000000);
    assert(pow10(16) == 10000000000000000);
    assert(pow10(17) == 100000000000000000);
    assert(pow10(18) == 1000000000000000000);
}

proof fn lemma_pow10_mono(a: nat, b: nat)
    requires
        a <= b,
    ensures
        pow10(a) <= pow10(b),
    decreases b,
{
    if a < b {
        lemma_pow10_mono(a, (b - 1) as nat);
        lemma_pow10_pos((b - 1) as nat);
    }
}

proof fn lemma_pow10_mul(a: nat, b: nat)
    ensures
        pow10(a) * pow10(b) == pow10(a + b),
    decreases a,
{
    if a == 0 {
        assert(1 * pow10(b) == pow10(b)) by (nonlinear_arith);
    } else {
        lemma_pow10_mul((a - 1) as nat, b);
        assert((10 * pow10((a - 1) as nat)) * pow10(b) == 10 * (pow10((a - 1) as nat) * pow10(b)))
            by (nonlinear_arith);
    }
}

/// Whether the character at `i` is a decimal digit.
fn digit_at(s: &str, i: usize) -> (r: bool)
    requires
        i < s@.len(),
    ensures
        r <==> is_digit(s@[i as int]),
{
    let c = s.get_char(i);
    (c as u32) >= 48 && (c as u32) <= 57
}

/// Scans the digits of `s` from `from` up to the first non-digit, returning
/// the stop position and the exact value of the scanned digits.
///
/// The value stays exact because the caller never lets more than 18 digits
/// through; the scan itself stops with `None` past that bound.
fn scan_digits(s: &str, from: usize, n: usize) -> (r: Option<(usize, i64)>)
    requires
        from <= n,
        n == s@.len(),
    ensures
        r is Some ==> {
            let (stop, val) = r.unwrap();
            &&& from <= stop <= n
            &&& stop - from <= 18
            &&& (forall|i: int| from <= i < stop ==> is_digit(#[trigger] s@[i]))
            &&& (stop < n ==> !is_digit(s@[stop as int]))
            &&& val as int == digits_val(s@.subrange(from as int, stop as int))
            &&& 0 <= val
            &&& (val as int) < pow10((stop - from) as nat)
        },
        r is None ==> from + 18 < n && (forall|i: int|
            from <= i <= from + 18 ==> is_digit(#[trigger] s@[i])),
{
    let mut i = from;
    let mut val: i64 = 0;
    while i < n && digit_at(s, i)
        invariant
            from <= i <= n,
            n == s@.len(),
            i - from <= 18,
            forall|q: int| from <= q < i ==> is_digit(#[trigger] s@[q]),
            val as int == digits_val(s@.subrange(from as int, i as int)),
            0 <= val,
            (val as int) < pow10((i - from) as nat),
        decreases n - i,
    {
        let c = s.get_char(i);
        let d = (c as u32) - 48;
        if i - from == 18 {
            // nineteen digits in a row: too many to represent exactly
            return None;
        }
        proof {
            let pre = s@.subrange(from as int, i as int);
            let post = s@.subrange(from as int, i + 1);
            assert(post.drop_last() =~= pre);
            assert(post.last() == s@[i as int]);
            lemma_pow10_mono(((i + 1) - from) as nat, 18);
            lemma_pow10_18();
        }
        val = val * 10 + (d as i64);
        i = i + 1;
    }
    proof {
        if i < n {
            assert(!is_digit(s@[i as int]));
        }
    }
    Some((i, val))
}

/// Parses a whole number: an optional minus sign, then 1 to 18 digits.
/// Succeeds exactly on that grammar, and then returns exactly the value
/// the text denotes.
pub fn parse_int(s: &str) -> (r: Option<i64>)
    ensures
        r is Some ==> r.unwrap() as int == int_val(s@),
        r is Some <==> is_int_str(s@) && body_of(s@).len() <= 18,
{
    let n = s.unicode_len();
    if n == 0 {
        return None;
    }
    let first = s.get_char(0);
    let neg = first == '-';
    let start: usize = if neg {
        1
    } else {
        0
    };
    proof {
        if neg {
            assert(body_of(s@) =~= s@.skip(1));
        } else {
            assert(body_of(s@) =~= s@);
        }
    }
    let ghost b = body_of(s@);
    let scan = match scan_digits(s, start, n) {
        Some(t) => t,
        None => {
            proof {
                assert(b.len() > 18);
            }
            return None;
        },
    };
    let (stop, val) = scan;
    if stop == start {
        // no digits at all
        proof {
            if b.len() > 0 {
                assert(b[0] == s@[start as int]);
            }
        }
        return None;
    }
    if stop < n {
        // a stray character after the digits
        proof {
            assert(b[stop - start] == s@[stop as int]);
        }
        return None;
    }
    proof {
        assert(b =~= s@.subrange(start as int, stop as int));
        assert forall|i: int| 0 <= i < b.len() implies is_digit(#[trigger] b[i]) by {
            assert(b[i] == s@[start + i]);
        }
    }
    if neg {
        Some(-val)
    } else {
        Some(val)
    }
}

/// Parses a decimal number: an optional minus sign, digits, then optionally
/// a point with more digits; at most 18 digits in all. Succeeds exactly on
/// that grammar, and then returns exactly the value the text denotes, as a
/// fraction over the power of ten of its fractional digits.
#[verifier::rlimit(60)]
pub fn parse_decimal(s: &str) -> (r: Option<Rat>)
    ensures
        r is Some ==> r.unwrap().wf() && frac_eq(r.unwrap()@, decimal_val(s@)),
        r is Some <==> is_decimal_str(s@) && prefix_digits_len(body_of(s@)) + frac_digits_len(s@)
            <= 18,
        r is Some && frac_digits_len(s@) == 0 ==> r.unwrap()@ == decimal_val(s@),
{
    let n = s.unicode_len();
    if n == 0 {
        return None;
    }
    let first = s.get_char(0);
    let neg = first == '-';
    let start: usize = if neg {
        1
    } else {
        0
    };
    proof {
        if neg {
            assert(body_of(s@) =~= s@.skip(1));
        } else {
            assert(body_of(s@) =~= s@);
        }
    }
    let ghost b = body_of(s@);
    let scan = match scan_digits(s, start, n) {
        Some(t) => t,
        None => {
            proof {
                assert forall|i: int| 0 <= i <= 18 implies is_digit(#[trigger] b[i]) by {
                    assert(b[i] == s@[start + i]);
                }
                lemma_prefix_digits(b);
                if prefix_digits_len(b) <= 18 {
                    assert(is_digit(b[prefix_digits_len(b)]));
                }
                assert(prefix_digits_len(b) > 18);
            }
            return None;
        },
    };
    let (stop, ival) = scan;
    let ghost k = prefix_digits_len(b);
    proof {
        // the scan found exactly the digit prefix of the body
        lemma_prefix_digits(b);
        assert forall|i: int| 0 <= i < stop - start implies is_digit(#[trigger] b[i]) by {
            assert(b[i] == s@[start + i]);
        }
        if k < stop - start {
            assert(is_digit(b[k]));
            assert(false);
        }
        if stop - start < k {
            assert(b[stop - start] == s@[stop as int]);
            assert(is_digit(s@[stop as int]));
            assert(false);
        }
        assert(k == stop - start);
        assert(s@.subrange(start as int, stop as int) =~= b.take(k));
    }
    if stop == start {
        // no digits before the point (or none at all)
        return None;
    }
    if stop == n {
        // a plain integer
        let r = Rat::from_int(if neg {
            -ival
        } else {
            ival
        });
        proof {
            assert(b.take(k) =~= b);
            let dv = decimal_val(s@);
            assert(dv.den == 1);
            assert(dv.num == sign_of(s@) * digits_val(b));
            assert(r@.num == dv.num) by (nonlinear_arith)
                requires
                    (neg && r@.num == -(ival as int) && sign_of(s@) == -1) || (!neg && r@.num
                        == ival as int && sign_of(s@) == 1),
                    ival as int == digits_val(b),
                    dv.num == sign_of(s@) * digits_val(b),
            ;
            assert(frac_eq(r@, dv)) by (nonlinear_arith)
                requires
                    r@.num == dv.num,
                    r@.den == 1,
                    dv.den == 1,
            ;
            assert(r@ == dv);
        }
        return Some(r);
    }
    let dot = s.get_char(stop);
    if dot != '.' {
        return None;
    }
    // fractional digits
    let fscan = match scan_digits(s, stop + 1, n) {
        Some(t) => t,
        None => {
            proof {
                let bf = b.skip(k + 1);
                lemma_prefix_digits(bf);
                assert forall|i: int| 0 <= i <= 18 implies is_digit(#[trigger] bf[i]) by {
                    assert(bf[i] == s@[stop + 1 + i]);
                }
                if prefix_digits_len(bf) <= 18 {
                    assert(is_digit(bf[prefix_digits_len(bf)]));
                }
                assert(prefix_digits_len(bf) > 18);
            }
            return None;
        },
    };
    let (fstop, fval) = fscan;
    let ghost bf = b.skip(k + 1);
    proof {
        lemma_prefix_digits(bf);
        assert forall|i: int| 0 <= i < fstop - stop - 1 implies is_digit(#[trigger] bf[i]) by {
            assert(bf[i] == s@[stop + 1 + i]);
        }
        if prefix_digits_len(bf) < fstop - stop - 1 {
            assert(is_digit(bf[prefix_digits_len(bf)]));
            assert(false);
        }
        if fstop - stop - 1 < prefix_digits_len(bf) && fstop < n {
            assert(bf[fstop - stop - 1] == s@[fstop as int]);
            assert(is_digit(s@[fstop as int]));
            assert(false);
        }
        assert(s@.subrange(stop + 1, fstop as int) =~= bf.take(fstop - stop - 1));
    }
    if fstop < n {
        // a stray character after the fractional digits
        proof {
            assert(prefix_digits_len(bf) == fstop - stop - 1);
            assert(b.len() - k - 1 > 0);
            assert(prefix_digits_len(b.skip(k + 1)) != b.len() - k - 1);
        }
        return None;
    }
    if fstop == stop + 1 {
        // a point with nothing after it
        proof {
            assert(b.len() - k - 1 == 0);
        }
        return None;
    }
    let m = fstop - (stop + 1);
    let idigits = stop - start;
    if idigits + m > 18 {
        return None;
    }
    proof {
        assert(bf.take(fstop - stop - 1) =~= bf);
        assert(prefix_digits_len(bf) == bf.len());
        lemma_pow10_mul(idigits as nat, m as nat);
        lemma_pow10_mono((idigits + m) as nat, 18);
        lemma_pow10_18();
        lemma_pow10_pos(m as nat);
        assert(ival * pow10(m as nat) + fval < pow10((idigits + m) as nat)
            && ival * pow10(m as nat) >= 0) by (nonlinear_arith)
            requires
                0 <= ival,
                (ival as int) < pow10(idigits as nat),
                0 <= fval,
                (fval as int) < pow10(m as nat),
                pow10(idigits as nat) * pow10(m as nat) == pow10((idigits + m) as nat),
                pow10(m as nat) >= 1,
        ;
    }
    let den = pow10_exec(m);
    let num: i64 = ival * den + fval;
    let r = Rat { num: if neg { -num } else { num }, den };
    proof {
        assert(r.wf());
        let dv = decimal_val(s@);
        assert(dv.den == pow10(m as nat));
        assert(dv.num == sign_of(s@) * (digits_val(b.take(k)) * pow10(m as nat) + digits_val(bf)));
        assert(r@.num == dv.num) by (nonlinear_arith)
            requires
                (neg && r@.num == -(num as int) && sign_of(s@) == -1) || (!neg && r@.num == num
                    as int && sign_of(s@) == 1),
                num as int == ival * pow10(m as nat) + fval,
                ival as int == digits_val(b.take(k)),
                fval as int == digits_val(bf),
                dv.num == sign_of(s@) * (digits_val(b.take(k)) * pow10(m as nat) + digits_val(bf)),
        ;
        assert(frac_eq(r@, dv)) by (nonlinear_arith)
            requires
                r@.num == dv.num,
                r@.den == dv.den,
        ;
        assert(frac_digits_len(s@) == b.len() - k - 1);
        assert(frac_digits_len(s@) > 0);
    }
    Some(r)
}

/// `10^k` for `k <= 18`, exactly.
fn pow10_exec(k: usize) -> (r: i64)
    requires
        k <= 18,
    ensures
        r as int == pow10(k as nat),
        r >= 1,
{
    proof {
        lemma_pow10_pos(k as nat);
    }
    let mut r: i64 = 1;
    let mut i: usize = 0;
    while i < k
        invariant
            i <= k <= 18,
            r as int == pow10(i as nat),
            r >= 1,
        decreases k - i,
    {
        proof {
            lemma_pow10_mono((i + 1) as nat, 18);
            lemma_pow10_18();
        }
        r = r * 10;
        i = i + 1;
    }
    r
}

/// Parses every cell of a row as a whole number that fits 32 bits;
/// succeeds exactly when every cell does.
pub fn parse_int_row(cells: &Vec<String>) -> (r: Option<Vec<i32>>)
    ensures
        r is Some ==> {
            let v = r.unwrap();
            &&& v.len() == cells.len()
            &&& (forall|i: int| 0 <= i < cells.len() ==> (#[trigger] v[i]) as int == int_val(cells[i]@))
        },
        r is Some <==> forall|i: int|
            0 <= i < cells.len() ==> is_int_str(#[trigger] cells[i]@) && body_of(cells[i]@).len()
                <= 18 && -0x8000_0000 <= int_val(cells[i]@) <= 0x7FFF_FFFF,
{
    let mut v: Vec<i32> = Vec::new();
    let mut i: usize = 0;
    while i < cells.len()
        invariant
            i <= cells.len(),
            v.len() == i,
            forall|q: int| 0 <= q < i ==> (#[trigger] v[q]) as int == int_val(cells[q]@),
            forall|q: int|
                0 <= q < i ==> is_int_str(#[trigger] cells[q]@) && body_of(cells[q]@).len() <= 18
                    && -0x8000_0000 <= int_val(cells[q]@) <= 0x7FFF_FFFF,
        decreases cells.len() - i,
    {
        let parsed = match parse_int(cells[i].as_str()) {
            Some(x) => x,
            None => {
                return None;
            },
        };
        if parsed < -0x8000_0000i64 || parsed > 0x7FFF_FFFFi64 {
            return None;
        }
        v.push(parsed as i32);
        i = i + 1;
    }
    Some(v)
}

/// Parses every cell of a row as a decimal; succeeds exactly when every
/// cell fits the decimal grammar.
pub fn parse_decimal_row(cells: &Vec<String>) -> (r: Option<Vec<Rat>>)
    ensures
        r is Some ==> {
            let v = r.unwrap();
            &&& v.len() == cells.len()
            &&& (forall|i: int|
                0 <= i < cells.len() ==> (#[trigger] v[i]).wf() && frac_eq(
                    v[i]@,
                    decimal_val(cells[i]@),
                ))
            &&& (forall|i: int|
                0 <= i < cells.len() && frac_digits_len(#[trigger] cells[i]@) == 0 ==> v[i]@
                    == decimal_val(cells[i]@))
        },
        r is Some <==> forall|i: int|
            0 <= i < cells.len() ==> is_decimal_str(#[trigger] cells[i]@) && prefix_digits_len(
                body_of(cells[i]@),
            ) + frac_digits_len(cells[i]@) <= 18,
{
    let mut v: Vec<Rat> = Vec::new();
    let mut i: usize = 0;
    while i < cells.len()
        invariant
            i <= cells.len(),
            v.len() == i,
            forall|q: int|
                0 <= q < i ==> (#[trigger] v[q]).wf() && frac_eq(v[q]@, decimal_val(cells[q]@)),
            forall|q: int|
                0 <= q < i && frac_digits_len(#[trigger] cells[q]@) == 0 ==> v[q]@ == decimal_val(
                    cells[q]@,
                ),
            forall|q: int|
                0 <= q < i ==> is_decimal_str(#[trigger] cells[q]@) && prefix_digits_len(
                    body_of(cells[q]@),
                ) + frac_digits_len(cells[q]@) <= 18,
        decreases cells.len() - i,
    {
        let parsed = match parse_decimal(cells[i].as_str()) {
            Some(x) => x,
            None => {
                return None;
            },
        };
        v.push(parsed);
        i = i + 1;
    }
    Some(v)
}

} // verus!
