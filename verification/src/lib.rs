//! A chi-squared goodness-of-fit calculator: an interactive numeric grid is
//! edited cell-by-cell, validated, fitted against a statistical model
//! (observed-vs-expected, binomial, Poisson, or a two-way contingency table),
//! and reduced to the chi-squared statistic.
//!
//! All numeric work is done in exact rational arithmetic, so every statistic
//! the library reports is the exact value of the closed-form sum it claims to
//! compute.
use vstd::prelude::*;

pub mod binom_sum;
pub mod chi;
pub mod contingency;
pub mod dist;
pub mod editor;
pub mod group;
pub mod nums;
pub mod params;
pub mod parse;
pub mod rat;

verus! {

/// Which of the four supported statistical models a run uses.
pub enum Mode {
    OE,
    Binomial,
    Poisson,
    ContingencyTable,
}

impl Mode {
    /// Maps a menu choice to a model: "1" through "4" select a mode, anything
    /// else is rejected so the caller can prompt again.
    pub fn get_mode(choice: &str) -> (m: Option<Mode>)
        ensures
            m == (if choice@ == seq!['1'] {
                Some(Mode::OE)
            } else if choice@ == seq!['2'] {
                Some(Mode::Binomial)
            } else if choice@ == seq!['3'] {
                Some(Mode::Poisson)
            } else if choice@ == seq!['4'] {
                Some(Mode::ContingencyTable)
            } else {
                None::<Mode>
            }),
    {
        if choice.unicode_len() != 1 {
            assert(choice@ != seq!['1'] && choice@ != seq!['2'] && choice@ != seq!['3']
                && choice@ != seq!['4']);
            return None;
        }
        let c = choice.get_char(0);
        proof {
            assert(choice@ =~= seq![choice@[0]]);
        }
        match c {
            '1' => Some(Mode::OE),
            '2' => Some(Mode::Binomial),
            '3' => Some(Mode::Poisson),
            '4' => Some(Mode::ContingencyTable),
            _ => {
                assert(choice@ != seq!['1'] && choice@ != seq!['2'] && choice@ != seq!['3']
                    && choice@ != seq!['4']);
                None
            },
        }
    }
}

} // verus!
