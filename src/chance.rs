use vstd::prelude::*;

verus! {

/// A probability written as `numerator / denominator`.
#[derive(Debug, Clone, Copy, PartialEq, Eq, Structural)]
pub struct Chance {
    pub numerator: u32,
    pub denominator: u32,
}

impl Chance {
    pub open spec fn wf(self) -> bool {
        0 < self.denominator && self.numerator <= self.denominator
    }

    pub open spec fn never(self) -> bool {
        self.numerator == 0
    }

    pub open spec fn always(self) -> bool {
        self.numerator == self.denominator
    }

    /// The probability `numerator / denominator`, when that lies in `[0, 1]`.
    pub fn new(numerator: u32, denominator: u32) -> (r: Option<Chance>)
        ensures
            r is Some <==> 0 < denominator && numerator <= denominator,
            r matches Some(c) ==> c.numerator == numerator && c.denominator == denominator,
    {
        if denominator == 0 || numerator > denominator {
            None
        } else {
            Some(Chance { numerator, denominator })
        }
    }

    /// Draws whether an event of this probability happens.
    pub fn occurs(&self) -> (r: bool)
        requires
            self.wf(),
        ensures
            self.never() ==> !r,
            self.always() ==> r,
    {
        ratio_coin(self.numerator, self.denominator)
    }
}

/// Relies on rand::Rng::gen_ratio with the thread-local generator: true with
/// probability `numerator / denominator`, always false for a zero numerator,
/// always true when the two are equal; it panics on a zero denominator or a
/// numerator above the denominator.
#[verifier::external_body]
fn ratio_coin(numerator: u32, denominator: u32) -> (r: bool)
    requires
        0 < denominator,
        numerator <= denominator,
    ensures
        numerator == 0 ==> !r,
        numerator == denominator ==> r,
{
    rand::Rng::gen_ratio(&mut rand::thread_rng(), numerator, denominator)
}

/// Relies on rand::random::<bool>: a fair coin.
#[verifier::external_body]
pub(crate) fn fair_coin() -> (r: bool) {
    rand::random::<bool>()
}

/// Relies on rand::Rng::gen_range over `0..n` with the thread-local
/// generator: uniform below `n`; it panics on an empty range.
#[verifier::external_body]
pub(crate) fn random_below(n: usize) -> (r: usize)
    requires
        0 < n,
    ensures
        r < n,
{
    rand::Rng::gen_range(&mut rand::thread_rng(), 0..n)
}

} // verus!
