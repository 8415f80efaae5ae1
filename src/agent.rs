use vstd::prelude::*;
use crate::chance::{fair_coin, Chance};

verus! {

/// The genetic operators every kind of individual offers.
pub trait Agent: Sized {
    /// A child that takes each gene from `self` or from `other`.
    fn crossover(&self, other: &Self) -> Self;

    /// A copy of `self` with random changes.
    fn mutate(&self) -> Self;
}

/// A genome of bits, each flipped on mutation with probability `mutation_prob`.
#[derive(Debug)]
pub struct Binary {
    vals: Vec<bool>,
    mutation_prob: Chance,
}

/// How many of the bits are set.
pub open spec fn count_true(bits: Seq<bool>) -> nat
    decreases bits.len(),
{
    if bits.len() == 0 {
        0
    } else {
        count_true(bits.drop_last()) + if bits.last() {
            1nat
        } else {
            0nat
        }
    }
}

impl Binary {
    #[verifier::type_invariant]
    spec fn inv(&self) -> bool {
        self.mutation_prob.wf()
    }

    pub closed spec fn spec_vals(&self) -> Seq<bool> {
        self.vals@
    }

    pub closed spec fn spec_mutation_prob(&self) -> Chance {
        self.mutation_prob
    }

    /// `len` bits, each set by a fair coin.
    pub fn new(len: usize, mutation_prob: Chance) -> (b: Binary)
        requires
            mutation_prob.wf(),
        ensures
            b.spec_vals().len() == len,
            b.spec_mutation_prob() == mutation_prob,
    {
        let mut vals: Vec<bool> = Vec::new();
        let mut i: usize = 0;
        while i < len
            invariant
                i <= len,
                vals@.len() == i,
            decreases len - i,
        {
            vals.push(fair_coin());
            i = i + 1;
        }
        Binary { vals, mutation_prob }
    }

    /// A genome with the given bits.
    pub fn from_bits(vals: Vec<bool>, mutation_prob: Chance) -> (b: Binary)
        requires
            mutation_prob.wf(),
        ensures
            b.spec_vals() == vals@,
            b.spec_mutation_prob() == mutation_prob,
    {
        Binary { vals, mutation_prob }
    }

    pub fn get_vals(&self) -> (v: &[bool])
        ensures
            v@ == self.spec_vals(),
    {
        self.vals.as_slice()
    }

    pub fn get_mutation_prob(&self) -> (c: Chance)
        ensures
            c == self.spec_mutation_prob(),
            c.wf(),
    {
        proof {
            use_type_invariant(self);
        }
        self.mutation_prob
    }

    /// The number of set bits; the fitness grows with it.
    pub fn true_count(&self) -> (n: usize)
        ensures
            n == count_true(self.spec_vals()),
    {
        let mut n: usize = 0;
        let mut i: usize = 0;
        while i < self.vals.len()
            invariant
                i <= self.vals@.len(),
                n == count_true(self.vals@.take(i as int)),
                n <= i,
            decreases self.vals@.len() - i,
        {
            proof {
                assert(self.vals@.take(i + 1).drop_last() =~= self.vals@.take(i as int));
            }
            if self.vals[i] {
                n = n + 1;
            }
            i = i + 1;
        }
        assert(self.vals@.take(i as int) =~= self.vals@);
        n
    }

    /// The child for the given coins, as long as the coins: bit `i` is the
    /// one of `self` where coin `i` is true, else the one of `other`; it keeps
    /// the mutation probability of `self`.
    pub fn crossover_by(&self, other: &Binary, coins: &Vec<bool>) -> (child: Binary)
        requires
            coins@.len() <= self.spec_vals().len(),
            coins@.len() <= other.spec_vals().len(),
        ensures
            child.spec_vals().len() == coins@.len(),
            forall|i: int|
                0 <= i < coins@.len() ==> #[trigger] child.spec_vals()[i] == if coins@[i] {
                    self.spec_vals()[i]
                } else {
                    other.spec_vals()[i]
                },
            child.spec_mutation_prob() == self.spec_mutation_prob(),
    {
        proof {
            use_type_invariant(self);
        }
        let mut vals: Vec<bool> = Vec::new();
        let mut i: usize = 0;
        while i < coins.len()
            invariant
                coins@.len() <= self.vals@.len(),
                coins@.len() <= other.vals@.len(),
                i <= coins@.len(),
                vals@.len() == i,
                forall|j: int|
                    0 <= j < i ==> #[trigger] vals@[j] == if coins@[j] {
                        self.vals@[j]
                    } else {
                        other.vals@[j]
                    },
            decreases coins@.len() - i,
        {
            let v = if coins[i] {
                self.vals[i]
            } else {
                other.vals[i]
            };
            vals.push(v);
            i = i + 1;
        }
        Binary { vals, mutation_prob: self.mutation_prob }
    }

    /// A child as long as the shorter parent, each bit from `self` or from
    /// `other` by a fair coin; it keeps the mutation probability of `self`.
    pub fn crossover(&self, other: &Binary) -> (child: Binary)
        ensures
            child.spec_vals().len() == if self.spec_vals().len() <= other.spec_vals().len() {
                self.spec_vals().len()
            } else {
                other.spec_vals().len()
            },
            forall|i: int|
                0 <= i < child.spec_vals().len() ==> #[trigger] child.spec_vals()[i]
                    == self.spec_vals()[i] || child.spec_vals()[i] == other.spec_vals()[i],
            child.spec_mutation_prob() == self.spec_mutation_prob(),
    {
        let len = if self.vals.len() <= other.vals.len() {
            self.vals.len()
        } else {
            other.vals.len()
        };
        let mut coins: Vec<bool> = Vec::new();
        while coins.len() < len
            invariant
                coins@.len() <= len,
            decreases len - coins@.len(),
        {
            coins.push(fair_coin());
        }
        let child = self.crossover_by(other, &coins);
        assert forall|i: int| 0 <= i < child.spec_vals().len() implies #[trigger] child.spec_vals()[i]
            == self.spec_vals()[i] || child.spec_vals()[i] == other.spec_vals()[i] by {
            assert(coins@[i] ==> child.spec_vals()[i] == self.spec_vals()[i]);
        }
        child
    }

    /// The child for the given flips, which match the bits one for one: bit
    /// `i` is flipped exactly where flip `i` is true.
    pub fn mutate_by(&self, flips: &Vec<bool>) -> (child: Binary)
        requires
            flips@.len() == self.spec_vals().len(),
        ensures
            child.spec_vals().len() == self.spec_vals().len(),
            forall|i: int|
                0 <= i < flips@.len() ==> #[trigger] child.spec_vals()[i] == (self.spec_vals()[i]
                    != flips@[i]),
            child.spec_mutation_prob() == self.spec_mutation_prob(),
    {
        proof {
            use_type_invariant(self);
        }
        let mut vals: Vec<bool> = Vec::new();
        let mut i: usize = 0;
        while i < flips.len()
            invariant
                flips@.len() == self.vals@.len(),
                i <= flips@.len(),
                vals@.len() == i,
                forall|j: int| 0 <= j < i ==> #[trigger] vals@[j] == (self.vals@[j] != flips@[j]),
            decreases flips@.len() - i,
        {
            vals.push(self.vals[i] != flips[i]);
            i = i + 1;
        }
        Binary { vals, mutation_prob: self.mutation_prob }
    }

    /// A copy with each bit flipped, independently, with the mutation probability.
    pub fn mutate(&self) -> (child: Binary)
        ensures
            child.spec_vals().len() == self.spec_vals().len(),
            child.spec_mutation_prob() == self.spec_mutation_prob(),
            self.spec_mutation_prob().never() ==> child.spec_vals() == self.spec_vals(),
            self.spec_mutation_prob().always() ==> forall|i: int|
                0 <= i < child.spec_vals().len() ==> #[trigger] child.spec_vals()[i]
                    != self.spec_vals()[i],
    {
        proof {
            use_type_invariant(self);
        }
        let mut flips: Vec<bool> = Vec::new();
        while flips.len() < self.vals.len()
            invariant
                self.mutation_prob.wf(),
                flips@.len() <= self.vals@.len(),
                self.mutation_prob.never() ==> forall|j: int| 0 <= j < flips@.len() ==> !#[trigger] flips@[j],
                self.mutation_prob.always() ==> forall|j: int| 0 <= j < flips@.len() ==> #[trigger] flips@[j],
            decreases self.vals@.len() - flips@.len(),
        {
            flips.push(self.mutation_prob.occurs());
        }
        let child = self.mutate_by(&flips);
        assert(self.mutation_prob.never() ==> child.spec_vals() =~= self.spec_vals());
        child
    }
}

impl Clone for Binary {
    fn clone(&self) -> (b: Self)
        ensures
            b.spec_vals() == self.spec_vals(),
            b.spec_mutation_prob() == self.spec_mutation_prob(),
    {
        proof {
            use_type_invariant(self);
        }
        Binary { vals: self.vals.clone(), mutation_prob: self.mutation_prob }
    }
}

impl Agent for Binary {
    fn crossover(&self, other: &Self) -> Self {
        Binary::crossover(self, other)
    }

    fn mutate(&self) -> Self {
        Binary::mutate(self)
    }
}

} // verus!
