//! Entropy without floating point: every random choice is kept as the exact
//! odds it had, and the bits follow from them.

use vstd::prelude::*;

verus! {

/// The odds of one random choice: the outcome had `count` chances out of
/// `total`. It carries `log2(total / count)` bits.
#[derive(Clone, Copy, Debug, PartialEq, Eq, Structural)]
pub struct Odds {
    pub count: u128,
    pub total: u128,
}

impl Odds {
    /// Odds that stand for a probability in `(0, 1]`.
    pub open spec fn valid(self) -> bool {
        0 < self.count <= self.total
    }

    /// The odds of one outcome among `n` equally likely ones.
    pub open spec fn one_in(n: nat) -> Odds {
        Odds { count: 1, total: n as u128 }
    }
}

/// The entropy of a generated string: the odds of each random choice that
/// went into it, in the order in which the choices were made. In bits it is
/// the sum of `log2(total / count)` over the terms.
#[derive(Debug)]
pub struct Entropy {
    pub terms: Vec<Odds>,
}

impl View for Entropy {
    type V = Seq<Odds>;

    open spec fn view(&self) -> Seq<Odds> {
        self.terms@
    }
}

/// Every term stands for a probability in `(0, 1]`.
pub open spec fn all_valid(terms: Seq<Odds>) -> bool {
    forall|i: int| 0 <= i < terms.len() ==> (#[trigger] terms[i]).valid()
}

/// The product of the counts: how many chances the whole string had, out of
/// [`space`].
pub open spec fn chances(terms: Seq<Odds>) -> nat
    decreases terms.len(),
{
    if terms.len() == 0 {
        1
    } else {
        chances(terms.drop_last()) * (terms.last().count as nat)
    }
}

/// The product of the totals: the number of equally likely cases of which
/// the string had [`chances`].
pub open spec fn space(terms: Seq<Odds>) -> nat
    decreases terms.len(),
{
    if terms.len() == 0 {
        1
    } else {
        space(terms.drop_last()) * (terms.last().total as nat)
    }
}

} // verus!
