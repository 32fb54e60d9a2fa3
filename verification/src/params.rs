//! The parameter collector: a one- or two-field text editor specialized
//! from the grid editor, and the terminating parse that turns the collected
//! text into a model parameter. Blank text means "estimate from the data";
//! anything else must parse, and a probability must lie in `[0, 1]`, or the
//! whole collection starts over.
use crate::dist::BinomialP;
use crate::dist::PoissonMean;
use crate::editor::Key;
use crate::editor::pop_char;
use crate::editor::push_char;
use crate::editor::text_erased;
use crate::parse::body_of;
use crate::parse::decimal_val;
use crate::parse::frac_digits_len;
use crate::parse::int_val;
use crate::parse::is_decimal_str;
use crate::parse::is_int_str;
use crate::parse::lemma_decimal_val_wf;
use crate::parse::parse_decimal;
use crate::parse::parse_int;
use crate::parse::prefix_digits_len;
use crate::rat::Rat;
use crate::rat::frac_eq;
use vstd::prelude::*;

verus! {

/// One key event of the two-field binomial editor: `n` is edited at
/// position 0, `p` at position 1, left and right move between them, and
/// the terminate key ends the collection.
pub fn edit_binomial_distribution(
    pos: &mut usize,
    n_text: &mut String,
    p_text: &mut String,
    key: &Key,
) -> (finished: bool)
    requires
        *old(pos) <= 1,
    ensures
        *final(pos) <= 1,
        finished <==> *key is Finish,
        *old(pos) == 0 && *key is Right ==> *final(pos) == 1 && final(n_text)@ == old(n_text)@
            && final(p_text)@ == old(p_text)@,
        *old(pos) == 1 && *key is Left ==> *final(pos) == 0 && final(n_text)@ == old(n_text)@
            && final(p_text)@ == old(p_text)@,
        *key matches Key::Character(ch) ==> *final(pos) == *old(pos) && (if *old(pos) == 0 {
            final(n_text)@ == old(n_text)@.push(ch) && final(p_text)@ == old(p_text)@
        } else {
            final(p_text)@ == old(p_text)@.push(ch) && final(n_text)@ == old(n_text)@
        }),
        *key is Erase ==> *final(pos) == *old(pos) && (if *old(pos) == 0 {
            text_erased(old(n_text)@, final(n_text)@) && final(p_text)@ == old(p_text)@
        } else {
            text_erased(old(p_text)@, final(p_text)@) && final(n_text)@ == old(n_text)@
        }),
        (*key is Finish || *key is Other || *key is Up || *key is Down || (*old(pos) == 0 && *key
            is Left) || (*old(pos) == 1 && *key is Right)) ==> *final(pos) == *old(pos)
            && final(n_text)@ == old(n_text)@ && final(p_text)@ == old(p_text)@,
{
    match key {
        Key::Right => {
            if *pos == 0 {
                *pos = 1;
            }
            false
        },
        Key::Left => {
            if *pos == 1 {
                *pos = 0;
            }
            false
        },
        Key::Character(ch) => {
            if *pos == 0 {
                push_char(n_text, *ch);
            } else {
                push_char(p_text, *ch);
            }
            false
        },
        Key::Erase => {
            if *pos == 0 {
                let _ = pop_char(n_text);
            } else {
                let _ = pop_char(p_text);
            }
            false
        },
        Key::Finish => true,
        _ => false,
    }
}

/// One key event of the single-field Poisson mean editor.
pub fn edit_poisson_mean(text: &mut String, key: &Key) -> (finished: bool)
    ensures
        finished <==> *key is Finish,
        *key matches Key::Character(ch) ==> final(text)@ == old(text)@.push(ch),
        *key is Erase ==> text_erased(old(text)@, final(text)@),
        !(*key matches Key::Character(_)) && !(*key is Erase) ==> final(text)@ == old(text)@,
{
    match key {
        Key::Character(ch) => {
            push_char(text, *ch);
            false
        },
        Key::Erase => {
            let _ = pop_char(text);
            false
        },
        Key::Finish => true,
        _ => false,
    }
}

/// Whether a binomial trial count is acceptable: a whole number between 0
/// and 12, the bound the exact coefficient arithmetic supports.
pub open spec fn n_text_ok(s: Seq<char>) -> bool {
    &&& is_int_str(s)
    &&& body_of(s).len() <= 18
    &&& 0 <= int_val(s) <= 12
}

/// Whether a probability text is acceptable: blank (estimate), or a
/// decimal in `[0, 1]`.
pub open spec fn p_text_ok(s: Seq<char>) -> bool {
    s.len() == 0 || {
        &&& is_decimal_str(s)
        &&& prefix_digits_len(body_of(s)) + frac_digits_len(s) <= 18
        &&& decimal_val(s).num >= 0
        &&& decimal_val(s).num <= decimal_val(s).den
    }
}

/// The terminating parse of the binomial collector: the trial count must
/// be a whole number no larger than 12, and the probability blank or a
/// decimal in `[0, 1]`. Fails — and the collection restarts — on exactly
/// everything else.
pub fn create_binomial_distribution(n_text: &str, p_text: &str) -> (r: Option<(usize, BinomialP)>)
    ensures
        r is Some <==> n_text_ok(n_text@) && p_text_ok(p_text@),
        r is Some ==> {
            let (n, p) = r.unwrap();
            &&& n as int == int_val(n_text@)
            &&& (p_text@.len() == 0 ==> p is Estimate)
            &&& (p_text@.len() > 0 ==> (p matches BinomialP::P(p0) && p0.wf() && frac_eq(
                p0@,
                decimal_val(p_text@),
            )))
        },
{
    let n = match parse_int(n_text) {
        Some(x) => x,
        None => {
            return None;
        },
    };
    if n < 0 || n > 12 {
        return None;
    }
    if p_text.unicode_len() == 0 {
        return Some((n as usize, BinomialP::Estimate));
    }
    let p = match parse_decimal(p_text) {
        Some(x) => x,
        None => {
            return None;
        },
    };
    if !p.is_nonneg() || !p.le_one() {
        proof {
            lemma_decimal_val_wf(p_text@);
            crate::rat::lemma_frac_lt_int_congr(p@, decimal_val(p_text@), 0);
            if p@.num < 0 {
                assert(p@.num < 0 * p@.den);
                assert(decimal_val(p_text@).num < 0 * decimal_val(p_text@).den);
            } else {
                lemma_le_den_congr(p@, decimal_val(p_text@));
            }
        }
        return None;
    }
    proof {
        lemma_decimal_val_wf(p_text@);
        crate::rat::lemma_frac_lt_int_congr(p@, decimal_val(p_text@), 0);
        assert(!(p@.num < 0 * p@.den));
        assert(!(decimal_val(p_text@).num < 0 * decimal_val(p_text@).den));
        lemma_le_den_congr(p@, decimal_val(p_text@));
    }
    Some((n as usize, BinomialP::P(p)))
}

/// Being at most 1 respects value equality.
proof fn lemma_le_den_congr(a: crate::rat::Frac, b: crate::rat::Frac)
    requires
        crate::rat::frac_wf(a),
        crate::rat::frac_wf(b),
        frac_eq(a, b),
    ensures
        (a.num <= a.den) <==> (b.num <= b.den),
{
    assert((a.num <= a.den) <==> (b.num <= b.den)) by (nonlinear_arith)
        requires
            a.den > 0,
            b.den > 0,
            a.num * b.den == b.num * a.den,
    ;
}

/// The terminating parse of the Poisson collector: blank means estimate,
/// anything else must be a nonnegative decimal mean. Fails — and the
/// collection restarts — on exactly everything else.
pub fn create_poission_distribution(text: &str) -> (r: Option<PoissonMean>)
    ensures
        r is Some <==> text@.len() == 0 || (is_decimal_str(text@) && prefix_digits_len(
            body_of(text@),
        ) + frac_digits_len(text@) <= 18 && decimal_val(text@).num >= 0),
        r is Some ==> {
            let m = r.unwrap();
            &&& (text@.len() == 0 ==> m is Estimate)
            &&& (text@.len() > 0 ==> (m matches PoissonMean::Mean(m0) && m0.wf() && frac_eq(
                m0@,
                decimal_val(text@),
            )))
        },
{
    if text.unicode_len() == 0 {
        return Some(PoissonMean::Estimate);
    }
    let m = match parse_decimal(text) {
        Some(x) => x,
        None => {
            return None;
        },
    };
    proof {
        lemma_decimal_val_wf(text@);
        crate::rat::lemma_frac_lt_int_congr(m@, decimal_val(text@), 0);
    }
    if !m.is_nonneg() {
        proof {
            assert(m@.num < 0 * m@.den);
            assert(decimal_val(text@).num < 0 * decimal_val(text@).den);
        }
        return None;
    }
    proof {
        assert(!(m@.num < 0 * m@.den));
        assert(!(decimal_val(text@).num < 0 * decimal_val(text@).den));
    }
    Some(PoissonMean::Mean(m))
}

} // verus!
