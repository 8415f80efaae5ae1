use vstd::prelude::*;
use crate::chance::Chance;
use crate::matrix::{folds_to, Matrix};

verus! {

/// A fully connected feed-forward network. Layer `l` maps `shape[l]` values
/// to `shape[l + 1]` through `weights[l]` (`shape[l]` x `shape[l + 1]`) and
/// `biases[l]` (one row of `shape[l + 1]`).
#[derive(Debug, Clone)]
pub struct Network<T> {
    weights: Vec<Matrix<T>>,
    biases: Vec<Matrix<T>>,
    shape: Vec<usize>,
}

/// Every cell of `a` stands in relation `p` to the same cell of `b`.
pub open spec fn cells_agree<T>(a: Matrix<T>, b: Matrix<T>, p: spec_fn(T, T) -> bool) -> bool {
    &&& a.same_shape(&b)
    &&& forall|r: int, c: int|
        0 <= r < a.spec_height() && 0 <= c < a.spec_width() ==> #[trigger] p(a.at(r, c), b.at(r, c))
}

/// Every cell of `a` is the same cell of `x` or of `y`.
pub open spec fn cells_picked<T>(a: Matrix<T>, x: Matrix<T>, y: Matrix<T>) -> bool {
    &&& a.same_shape(&x)
    &&& forall|r: int, c: int|
        0 <= r < a.spec_height() && 0 <= c < a.spec_width() ==> #[trigger] a.at(r, c) == x.at(r, c)
            || a.at(r, c) == y.at(r, c)
}

/// Layer sizes a network can be run with: a layer of no values cannot
/// feed a layer of some.
pub open spec fn runnable(shape: Seq<usize>) -> bool {
    forall|i: int| 0 <= i < shape.len() - 1 ==> #[trigger] shape[i] > 0 || shape[i + 1] == 0
}

/// `v` is a value that `squash` can return.
pub open spec fn squashed<T, S: Fn(T) -> T>(squash: S, v: T) -> bool {
    exists|x: T| #[trigger] squash.ensures((x,), v)
}

/// `v` is what one layer can make of `input` at output `c`: the product of
/// `input` with column `c` of `weight` (by `times`, summed by `plus`), plus
/// bias `c`, through `squash`.
pub open spec fn cell_step<T, M: Fn(T, T) -> T, A: Fn(T, T) -> T, S: Fn(T) -> T>(
    times: M,
    plus: A,
    squash: S,
    weight: Matrix<T>,
    bias: Matrix<T>,
    input: Seq<T>,
    c: int,
    v: T,
) -> bool {
    exists|p: T, q: T|
        folds_to(times, plus, input, weight.col_seq(c), p) && #[trigger] plus.ensures(
            (p, bias.at(0, c)),
            q,
        ) && #[trigger] squash.ensures((q,), v)
}

/// `output` is what one layer, of `weight` and `bias`, can make of `input`.
pub open spec fn layer_step<T, M: Fn(T, T) -> T, A: Fn(T, T) -> T, S: Fn(T) -> T>(
    times: M,
    plus: A,
    squash: S,
    weight: Matrix<T>,
    bias: Matrix<T>,
    input: Seq<T>,
    output: Seq<T>,
) -> bool {
    &&& output.len() == weight.spec_width()
    &&& forall|c: int|
        0 <= c < output.len() ==> cell_step(times, plus, squash, weight, bias, input, c, #[trigger] output[c])
}

/// One mask per matrix, each of the same shape as its matrix.
pub open spec fn mask_fits<T>(mask: Seq<Matrix<bool>>, layers: Seq<Matrix<T>>) -> bool {
    &&& mask.len() == layers.len()
    &&& forall|l: int| 0 <= l < mask.len() ==> (#[trigger] mask[l]).wf() && mask[l].same_shape(&layers[l])
}

/// Every cell of `a` is the same cell of `x` where `coins` is true there,
/// else the same cell of `y`.
pub open spec fn cells_chosen<T>(a: Matrix<T>, x: Matrix<T>, y: Matrix<T>, coins: Matrix<bool>) -> bool {
    &&& a.same_shape(&x)
    &&& forall|r: int, c: int|
        0 <= r < a.spec_height() && 0 <= c < a.spec_width() ==> #[trigger] a.at(r, c) == if coins.at(
            r,
            c,
        ) {
            x.at(r, c)
        } else {
            y.at(r, c)
        }
}

/// Every cell of `a` is `perturb` of the same cell of `x` where `flips` is
/// true there, else that cell unchanged.
pub open spec fn cells_flipped<T, P: Fn(T) -> T>(
    a: Matrix<T>,
    x: Matrix<T>,
    flips: Matrix<bool>,
    perturb: P,
) -> bool {
    &&& a.same_shape(&x)
    &&& forall|r: int, c: int|
        0 <= r < a.spec_height() && 0 <= c < a.spec_width() ==> if flips.at(r, c) {
            perturb.ensures((x.at(r, c),), #[trigger] a.at(r, c))
        } else {
            a.at(r, c) == x.at(r, c)
        }
}

/// Layer sizes that a network can be built with.
pub open spec fn shape_ok(shape: Seq<usize>) -> bool {
    &&& shape.len() >= 2
    &&& forall|i: int| 0 <= i < shape.len() - 1 ==> #[trigger] shape[i] * shape[i + 1] <= usize::MAX
}

impl<T> Network<T> {
    pub closed spec fn spec_shape(&self) -> Seq<usize> {
        self.shape@
    }

    pub closed spec fn spec_weights(&self) -> Seq<Matrix<T>> {
        self.weights@
    }

    pub closed spec fn spec_biases(&self) -> Seq<Matrix<T>> {
        self.biases@
    }

    pub open spec fn layers(&self) -> int {
        self.spec_shape().len() - 1
    }

    pub open spec fn weight_ok(&self, l: int) -> bool {
        let w = self.spec_weights()[l];
        &&& w.wf()
        &&& w.spec_height() == self.spec_shape()[l]
        &&& w.spec_width() == self.spec_shape()[l + 1]
    }

    pub open spec fn bias_ok(&self, l: int) -> bool {
        let b = self.spec_biases()[l];
        &&& b.wf()
        &&& b.spec_height() == 1
        &&& b.spec_width() == self.spec_shape()[l + 1]
    }

    pub open spec fn wf(&self) -> bool {
        &&& shape_ok(self.spec_shape())
        &&& self.spec_weights().len() == self.layers()
        &&& self.spec_biases().len() == self.layers()
        &&& forall|l: int| 0 <= l < self.layers() ==> #[trigger] self.weight_ok(l)
        &&& forall|l: int| 0 <= l < self.layers() ==> #[trigger] self.bias_ok(l)
    }

    /// Same shape, and every scalar of `self` stands in relation `p` to the
    /// scalar at the same place in `other`.
    pub open spec fn agrees_with(&self, other: &Network<T>, p: spec_fn(T, T) -> bool) -> bool {
        &&& self.spec_shape() == other.spec_shape()
        &&& self.spec_weights().len() == other.spec_weights().len()
        &&& self.spec_biases().len() == other.spec_biases().len()
        &&& forall|l: int|
            0 <= l < self.spec_weights().len() ==> cells_agree(
                #[trigger] self.spec_weights()[l],
                other.spec_weights()[l],
                p,
            )
        &&& forall|l: int|
            0 <= l < self.spec_biases().len() ==> cells_agree(
                #[trigger] self.spec_biases()[l],
                other.spec_biases()[l],
                p,
            )
    }

    /// Same shape as `x`, and every scalar is the one at the same place in
    /// `x` or in `y`.
    pub open spec fn picks_from(&self, x: &Network<T>, y: &Network<T>) -> bool {
        &&& self.spec_shape() == x.spec_shape()
        &&& self.spec_weights().len() == x.spec_weights().len()
        &&& self.spec_biases().len() == x.spec_biases().len()
        &&& forall|l: int|
            0 <= l < self.spec_weights().len() ==> cells_picked(
                #[trigger] self.spec_weights()[l],
                x.spec_weights()[l],
                y.spec_weights()[l],
            )
        &&& forall|l: int|
            0 <= l < self.spec_biases().len() ==> cells_picked(
                #[trigger] self.spec_biases()[l],
                x.spec_biases()[l],
                y.spec_biases()[l],
            )
    }

    /// Same shape as `x`, each scalar chosen by `weight_coins` and
    /// `bias_coins` between `x` and `y`.
    pub open spec fn chosen_by(
        &self,
        x: &Network<T>,
        y: &Network<T>,
        weight_coins: Seq<Matrix<bool>>,
        bias_coins: Seq<Matrix<bool>>,
    ) -> bool {
        &&& self.spec_shape() == x.spec_shape()
        &&& self.spec_weights().len() == x.spec_weights().len()
        &&& self.spec_biases().len() == x.spec_biases().len()
        &&& forall|l: int|
            0 <= l < self.spec_weights().len() ==> cells_chosen(
                #[trigger] self.spec_weights()[l],
                x.spec_weights()[l],
                y.spec_weights()[l],
                weight_coins[l],
            )
        &&& forall|l: int|
            0 <= l < self.spec_biases().len() ==> cells_chosen(
                #[trigger] self.spec_biases()[l],
                x.spec_biases()[l],
                y.spec_biases()[l],
                bias_coins[l],
            )
    }

    /// Same shape as `x`, each scalar of `x` perturbed where its flip is
    /// true and kept elsewhere.
    pub open spec fn flipped_by<P: Fn(T) -> T>(
        &self,
        x: &Network<T>,
        weight_flips: Seq<Matrix<bool>>,
        bias_flips: Seq<Matrix<bool>>,
        perturb: P,
    ) -> bool {
        &&& self.spec_shape() == x.spec_shape()
        &&& self.spec_weights().len() == x.spec_weights().len()
        &&& self.spec_biases().len() == x.spec_biases().len()
        &&& forall|l: int|
            0 <= l < self.spec_weights().len() ==> cells_flipped(
                #[trigger] self.spec_weights()[l],
                x.spec_weights()[l],
                weight_flips[l],
                perturb,
            )
        &&& forall|l: int|
            0 <= l < self.spec_biases().len() ==> cells_flipped(
                #[trigger] self.spec_biases()[l],
                x.spec_biases()[l],
                bias_flips[l],
                perturb,
            )
    }

    /// `trace` holds the values entering each layer, then the outputs, each
    /// row what its layer makes of the one before.
    pub open spec fn runs_through<M: Fn(T, T) -> T, A: Fn(T, T) -> T, S: Fn(T) -> T>(
        &self,
        times: M,
        plus: A,
        squash: S,
        trace: Seq<Seq<T>>,
    ) -> bool {
        &&& trace.len() == self.layers() + 1
        &&& forall|l: int|
            0 <= l < self.layers() ==> layer_step(
                times,
                plus,
                squash,
                self.spec_weights()[l],
                self.spec_biases()[l],
                #[trigger] trace[l],
                trace[l + 1],
            )
    }

    /// Every matrix of a well-formed network is well formed.
    proof fn lemma_layers_wf(&self)
        requires
            self.wf(),
        ensures
            forall|l: int| 0 <= l < self.weights@.len() ==> (#[trigger] self.weights@[l]).wf(),
            forall|l: int| 0 <= l < self.biases@.len() ==> (#[trigger] self.biases@[l]).wf(),
    {
        assert forall|l: int| 0 <= l < self.weights@.len() implies (#[trigger] self.weights@[l]).wf() by {
            assert(self.weight_ok(l));
        }
        assert forall|l: int| 0 <= l < self.biases@.len() implies (#[trigger] self.biases@[l]).wf() by {
            assert(self.bias_ok(l));
        }
    }

    /// A network of the given shape, every weight and bias drawn from `sample`.
    pub fn new<F>(shape: Vec<usize>, sample: F) -> (n: Self) where F: Fn() -> T,
        requires
            shape_ok(shape@),
            sample.requires(()),
        ensures
            n.wf(),
            n.spec_shape() == shape@,
            forall|l: int, r: int, c: int|
                0 <= l < n.layers() && 0 <= r < shape@[l] && 0 <= c < shape@[l + 1] ==> sample.ensures(
                    (),
                    #[trigger] n.spec_weights()[l].at(r, c),
                ),
            forall|l: int, c: int|
                0 <= l < n.layers() && 0 <= c < shape@[l + 1] ==> sample.ensures(
                    (),
                    #[trigger] n.spec_biases()[l].at(0, c),
                ),
    {
        let mut weights: Vec<Matrix<T>> = Vec::new();
        let mut biases: Vec<Matrix<T>> = Vec::new();
        let layers = shape.len() - 1;
        let mut l: usize = 0;
        while l < layers
            invariant
                shape_ok(shape@),
                layers == shape@.len() - 1,
                sample.requires(()),
                l <= layers,
                weights@.len() == l,
                biases@.len() == l,
                forall|k: int|
                    0 <= k < l ==> {
                        let w = #[trigger] weights@[k];
                        &&& w.wf()
                        &&& w.spec_height() == shape@[k]
                        &&& w.spec_width() == shape@[k + 1]
                        &&& forall|r: int, c: int|
                            0 <= r < shape@[k] && 0 <= c < shape@[k + 1] ==> sample.ensures(
                                (),
                                #[trigger] w.at(r, c),
                            )
                    },
                forall|k: int|
                    0 <= k < l ==> {
                        let b = #[trigger] biases@[k];
                        &&& b.wf()
                        &&& b.spec_height() == 1
                        &&& b.spec_width() == shape@[k + 1]
                        &&& forall|c: int|
                            0 <= c < shape@[k + 1] ==> sample.ensures((), #[trigger] b.at(0, c))
                    },
            decreases layers - l,
        {
            let rows = shape[l];
            let cols = shape[l + 1];
            assert(rows * cols <= usize::MAX);
            let source = &sample;
            let draw = |_r: usize, _c: usize| -> (v: T)
                requires
                    source.requires(()),
                ensures
                    source.ensures((), v),
                { source() };
            let w = Matrix::new_map(rows, cols, draw);
            let b = Matrix::new_map(1, cols, draw);
            assert forall|r: int, c: int| 0 <= r < rows && 0 <= c < cols implies sample.ensures(
                (),
                #[trigger] w.at(r, c),
            ) by {
                assert(draw.ensures((r as usize, c as usize), w.at(r as usize as int, c as usize as int)));
            }
            assert forall|c: int| 0 <= c < cols implies sample.ensures((), #[trigger] b.at(0, c)) by {
                assert(draw.ensures((0usize, c as usize), b.at(0, c as usize as int)));
            }
            weights.push(w);
            biases.push(b);
            l = l + 1;
        }
        let n = Network { weights, biases, shape };
        assert forall|l: int| 0 <= l < n.layers() implies #[trigger] n.weight_ok(l) by {
            assert(weights@[l].wf());
        }
        assert forall|l: int| 0 <= l < n.layers() implies #[trigger] n.bias_ok(l) by {
            assert(biases@[l].wf());
        }
        n
    }

    /// The layer sizes, inputs first.
    pub fn get_shape(&self) -> (s: &[usize])
        ensures
            s@ == self.spec_shape(),
    {
        self.shape.as_slice()
    }

    /// The weight matrices, first layer first.
    pub fn get_weights(&self) -> (w: &[Matrix<T>])
        ensures
            w@ == self.spec_weights(),
    {
        self.weights.as_slice()
    }

    /// The bias rows, first layer first.
    pub fn get_biases(&self) -> (b: &[Matrix<T>])
        ensures
            b@ == self.spec_biases(),
    {
        self.biases.as_slice()
    }

    /// Whether the two networks have the same shape.
    fn same_shape_as(&self, other: &Network<T>) -> (r: bool)
        ensures
            r == (self.spec_shape() == other.spec_shape()),
    {
        if self.shape.len() != other.shape.len() {
            return false;
        }
        let mut i: usize = 0;
        while i < self.shape.len()
            invariant
                self.shape@.len() == other.shape@.len(),
                forall|j: int| 0 <= j < i ==> self.shape@[j] == other.shape@[j],
            decreases self.shape@.len() - i,
        {
            if self.shape[i] != other.shape[i] {
                return false;
            }
            i = i + 1;
        }
        assert(self.shape@ =~= other.shape@);
        true
    }
}

impl<T: Copy> Network<T> {
    /// The child of `self` and `other` for the given coins: each scalar is
    /// the one of `self` where its coin is true, else the one of `other`.
    pub fn merge_by(
        &self,
        other: &Network<T>,
        weight_coins: &Vec<Matrix<bool>>,
        bias_coins: &Vec<Matrix<bool>>,
    ) -> (child: Network<T>)
        requires
            self.wf(),
            other.wf(),
            self.spec_shape() == other.spec_shape(),
            mask_fits(weight_coins@, self.spec_weights()),
            mask_fits(bias_coins@, self.spec_biases()),
        ensures
            child.wf(),
            child.chosen_by(self, other, weight_coins@, bias_coins@),
    {
        let layers = self.shape.len() - 1;
        let mut weights: Vec<Matrix<T>> = Vec::new();
        let mut biases: Vec<Matrix<T>> = Vec::new();
        let mut l: usize = 0;
        while l < layers
            invariant
                self.wf(),
                other.wf(),
                self.spec_shape() == other.spec_shape(),
                mask_fits(weight_coins@, self.spec_weights()),
                mask_fits(bias_coins@, self.spec_biases()),
                layers == self.layers(),
                l <= layers,
                weights@.len() == l,
                biases@.len() == l,
                forall|k: int|
                    0 <= k < l ==> {
                        let w = #[trigger] weights@[k];
                        &&& w.wf()
                        &&& cells_chosen(
                            w,
                            self.spec_weights()[k],
                            other.spec_weights()[k],
                            weight_coins@[k],
                        )
                    },
                forall|k: int|
                    0 <= k < l ==> {
                        let b = #[trigger] biases@[k];
                        &&& b.wf()
                        &&& cells_chosen(b, self.spec_biases()[k], other.spec_biases()[k], bias_coins@[k])
                    },
            decreases layers - l,
        {
            assert(self.weight_ok(l as int) && other.weight_ok(l as int));
            assert(self.bias_ok(l as int) && other.bias_ok(l as int));
            assert(weight_coins@[l as int].wf() && bias_coins@[l as int].wf());
            let w = choose_cells(&self.weights[l], &other.weights[l], &weight_coins[l]);
            let b = choose_cells(&self.biases[l], &other.biases[l], &bias_coins[l]);
            weights.push(w);
            biases.push(b);
            l = l + 1;
        }
        let child = Network { weights, biases, shape: self.shape.clone() };
        assert(child.spec_shape() =~= self.spec_shape());
        assert forall|k: int| 0 <= k < child.layers() implies #[trigger] child.weight_ok(k) by {
            assert(self.weight_ok(k));
            assert(weights@[k].wf());
        }
        assert forall|k: int| 0 <= k < child.layers() implies #[trigger] child.bias_ok(k) by {
            assert(self.bias_ok(k));
            assert(biases@[k].wf());
        }
        child
    }

    /// A child of `self` and `other`, which have the same shape: each scalar
    /// taken, by its own fair coin, from `self` or from `other`.
    pub fn merge(&self, other: &Network<T>) -> (child: Network<T>)
        requires
            self.wf(),
            other.wf(),
            self.spec_shape() == other.spec_shape(),
        ensures
            child.wf(),
            child.picks_from(self, other),
    {
        let fair = Chance { numerator: 1, denominator: 2 };
        proof {
            self.lemma_layers_wf();
        }
        let weight_coins = draw_mask(&self.weights, fair);
        let bias_coins = draw_mask(&self.biases, fair);
        let child = self.merge_by(other, &weight_coins, &bias_coins);
        assert forall|l: int| 0 <= l < child.spec_weights().len() implies cells_picked(
            #[trigger] child.spec_weights()[l],
            self.spec_weights()[l],
            other.spec_weights()[l],
        ) by {
            lemma_chosen_picked(
                child.spec_weights()[l],
                self.spec_weights()[l],
                other.spec_weights()[l],
                weight_coins@[l],
            );
        }
        assert forall|l: int| 0 <= l < child.spec_biases().len() implies cells_picked(
            #[trigger] child.spec_biases()[l],
            self.spec_biases()[l],
            other.spec_biases()[l],
        ) by {
            lemma_chosen_picked(
                child.spec_biases()[l],
                self.spec_biases()[l],
                other.spec_biases()[l],
                bias_coins@[l],
            );
        }
        child
    }

    /// A copy of `self` in which each scalar whose flip is true is replaced
    /// by `perturb` of it, and every other scalar is kept.
    pub fn mutate_by<P>(
        &self,
        weight_flips: &Vec<Matrix<bool>>,
        bias_flips: &Vec<Matrix<bool>>,
        perturb: P,
    ) -> (child: Network<T>) where P: Fn(T) -> T,
        requires
            self.wf(),
            mask_fits(weight_flips@, self.spec_weights()),
            mask_fits(bias_flips@, self.spec_biases()),
            forall|v: T| #[trigger] perturb.requires((v,)),
        ensures
            child.wf(),
            child.flipped_by(self, weight_flips@, bias_flips@, perturb),
    {
        let layers = self.shape.len() - 1;
        let mut weights: Vec<Matrix<T>> = Vec::new();
        let mut biases: Vec<Matrix<T>> = Vec::new();
        let mut l: usize = 0;
        while l < layers
            invariant
                self.wf(),
                mask_fits(weight_flips@, self.spec_weights()),
                mask_fits(bias_flips@, self.spec_biases()),
                forall|v: T| #[trigger] perturb.requires((v,)),
                layers == self.layers(),
                l <= layers,
                weights@.len() == l,
                biases@.len() == l,
                forall|k: int|
                    0 <= k < l ==> {
                        let w = #[trigger] weights@[k];
                        &&& w.wf()
                        &&& cells_flipped(w, self.spec_weights()[k], weight_flips@[k], perturb)
                    },
                forall|k: int|
                    0 <= k < l ==> {
                        let b = #[trigger] biases@[k];
                        &&& b.wf()
                        &&& cells_flipped(b, self.spec_biases()[k], bias_flips@[k], perturb)
                    },
            decreases layers - l,
        {
            assert(self.weight_ok(l as int));
            assert(self.bias_ok(l as int));
            assert(weight_flips@[l as int].wf() && bias_flips@[l as int].wf());
            let w = flip_cells(&self.weights[l], &weight_flips[l], &perturb);
            let b = flip_cells(&self.biases[l], &bias_flips[l], &perturb);
            weights.push(w);
            biases.push(b);
            l = l + 1;
        }
        let child = Network { weights, biases, shape: self.shape.clone() };
        assert(child.spec_shape() =~= self.spec_shape());
        assert forall|k: int| 0 <= k < child.layers() implies #[trigger] child.weight_ok(k) by {
            assert(self.weight_ok(k));
            assert(weights@[k].wf());
        }
        assert forall|k: int| 0 <= k < child.layers() implies #[trigger] child.bias_ok(k) by {
            assert(self.bias_ok(k));
            assert(biases@[k].wf());
        }
        child
    }

    /// A copy of `self` in which each scalar, with probability `chance` and
    /// independently of the others, is replaced by `perturb` of it.
    pub fn mutate<P>(&self, chance: Chance, perturb: P) -> (child: Network<T>) where
        P: Fn(T) -> T,

        requires
            self.wf(),
            chance.wf(),
            forall|v: T| #[trigger] perturb.requires((v,)),
        ensures
            child.wf(),
            child.agrees_with(self, |n: T, o: T| n == o || perturb.ensures((o,), n)),
            chance.never() ==> child.agrees_with(self, |n: T, o: T| n == o),
            chance.always() ==> child.agrees_with(self, |n: T, o: T| perturb.ensures((o,), n)),
    {
        proof {
            self.lemma_layers_wf();
        }
        let weight_flips = draw_mask(&self.weights, chance);
        let bias_flips = draw_mask(&self.biases, chance);
        let child = self.mutate_by(&weight_flips, &bias_flips, &perturb);
        let ghost any = |n: T, o: T| n == o || perturb.ensures((o,), n);
        let ghost same = |n: T, o: T| n == o;
        let ghost all = |n: T, o: T| perturb.ensures((o,), n);
        assert forall|l: int| 0 <= l < child.spec_weights().len() implies {
            &&& cells_agree(#[trigger] child.spec_weights()[l], self.spec_weights()[l], any)
            &&& chance.never() ==> cells_agree(child.spec_weights()[l], self.spec_weights()[l], same)
            &&& chance.always() ==> cells_agree(child.spec_weights()[l], self.spec_weights()[l], all)
        } by {
            lemma_flipped_agrees(
                child.spec_weights()[l],
                self.spec_weights()[l],
                weight_flips@[l],
                chance,
                perturb,
            );
        }
        assert forall|l: int| 0 <= l < child.spec_biases().len() implies {
            &&& cells_agree(#[trigger] child.spec_biases()[l], self.spec_biases()[l], any)
            &&& chance.never() ==> cells_agree(child.spec_biases()[l], self.spec_biases()[l], same)
            &&& chance.always() ==> cells_agree(child.spec_biases()[l], self.spec_biases()[l], all)
        } by {
            lemma_flipped_agrees(
                child.spec_biases()[l],
                self.spec_biases()[l],
                bias_flips@[l],
                chance,
                perturb,
            );
        }
        child
    }
}

impl<T: Copy> Network<T> {
    /// Feeds `values`, one per input of the first layer, through the layers
    /// in order: each multiplies the running row by its weights (with
    /// `times` and `plus`), adds its biases (with `plus`) and applies
    /// `squash` to every value.
    pub fn evaluate<M, A, S>(&self, values: &Vec<T>, times: M, plus: A, squash: S) -> (out: Vec<T>) where
        M: Fn(T, T) -> T,
        A: Fn(T, T) -> T,
        S: Fn(T) -> T,

        requires
            self.wf(),
            runnable(self.spec_shape()),
            values@.len() == self.spec_shape()[0],
            forall|a: T, b: T| #[trigger] times.requires((a, b)),
            forall|a: T, b: T| #[trigger] plus.requires((a, b)),
            forall|a: T| #[trigger] squash.requires((a,)),
        ensures
            out@.len() == self.spec_shape().last(),
            forall|i: int| 0 <= i < out@.len() ==> squashed(squash, #[trigger] out@[i]),
            exists|trace: Seq<Seq<T>>|
                #[trigger] self.runs_through(times, plus, squash, trace) && trace[0] == values@
                    && trace.last() == out@,
    {
        let n = values.len();
        let read = |_r: usize, c: usize| -> (v: T)
            requires
                c < n,
            ensures
                v == values@[c as int],
            { values[c] };
        let mut current = Matrix::new_map(1, n, read);
        assert(current.row_seq(0) =~= values@);
        let ghost mut trace: Seq<Seq<T>> = seq![values@];
        let layers = self.shape.len() - 1;
        let mut l: usize = 0;
        while l < layers
            invariant
                self.wf(),
                runnable(self.spec_shape()),
                layers == self.layers(),
                l <= layers,
                forall|a: T, b: T| #[trigger] times.requires((a, b)),
                forall|a: T, b: T| #[trigger] plus.requires((a, b)),
                forall|a: T| #[trigger] squash.requires((a,)),
                current.wf(),
                current.spec_height() == 1,
                current.spec_width() == self.spec_shape()[l as int],
                l > 0 ==> forall|c: int|
                    0 <= c < current.spec_width() ==> squashed(squash, #[trigger] current.at(0, c)),
                trace.len() == l + 1,
                trace[0] == values@,
                trace[l as int] == current.row_seq(0),
                forall|k: int|
                    0 <= k < l ==> layer_step(
                        times,
                        plus,
                        squash,
                        self.spec_weights()[k],
                        self.spec_biases()[k],
                        #[trigger] trace[k],
                        trace[k + 1],
                    ),
            decreases layers - l,
        {
            assert(self.weight_ok(l as int));
            assert(self.bias_ok(l as int));
            assert(self.spec_shape()[l as int] > 0 || self.spec_shape()[l + 1] == 0);
            let product = current.product_with(&self.weights[l], &times, &plus);
            let biased = product.zip_with(&self.biases[l], &plus);
            let ghost before = biased;
            let next = biased.map(&squash);
            assert forall|c: int| 0 <= c < next.spec_width() implies squashed(
                squash,
                #[trigger] next.at(0, c),
            ) by {
                assert(squash.ensures((before.at(0, c),), next.at(0, c)));
            }
            let ghost w = self.spec_weights()[l as int];
            let ghost b = self.spec_biases()[l as int];
            assert forall|c: int| 0 <= c < next.row_seq(0).len() implies cell_step(
                times,
                plus,
                squash,
                w,
                b,
                trace[l as int],
                c,
                #[trigger] next.row_seq(0)[c],
            ) by {
                lemma_folds_to_deref(times, plus, current.row_seq(0), w.col_seq(c), product.at(0, c));
                assert(plus.ensures((product.at(0, c), b.at(0, c)), before.at(0, c)));
                assert(squash.ensures((before.at(0, c),), next.at(0, c)));
            }
            proof {
                trace = trace.push(next.row_seq(0));
            }
            current = next;
            l = l + 1;
        }
        let row = current.row(0);
        let out = vstd::slice::slice_to_vec(row);
        assert forall|i: int| 0 <= i < out@.len() implies squashed(squash, #[trigger] out@[i]) by {
            assert(out@[i] == current.at(0, i));
        }
        assert(self.runs_through(times, plus, squash, trace));
        out
    }
}

/// A fold through references to the closures is a fold through the closures.
proof fn lemma_folds_to_deref<T, M: Fn(T, T) -> T, A: Fn(T, T) -> T>(
    times: M,
    plus: A,
    a: Seq<T>,
    b: Seq<T>,
    v: T,
)
    requires
        folds_to(&times, &plus, a, b, v),
    ensures
        folds_to(times, plus, a, b, v),
    decreases a.len(),
{
    if a.len() > 1 {
        let (acc, p) = choose|acc: T, p: T|
            folds_to(&times, &plus, a.drop_last(), b.drop_last(), acc) && (&times).ensures(
                (a.last(), b.last()),
                p,
            ) && #[trigger] (&plus).ensures((acc, p), v);
        lemma_folds_to_deref(times, plus, a.drop_last(), b.drop_last(), acc);
        assert(times.ensures((a.last(), b.last()), p));
        assert(plus.ensures((acc, p), v));
    }
}

/// One mask per matrix of `layers`, of the same shape, each entry true with
/// probability `chance`.
fn draw_mask<T>(layers: &Vec<Matrix<T>>, chance: Chance) -> (mask: Vec<Matrix<bool>>)
    requires
        chance.wf(),
        forall|l: int| 0 <= l < layers@.len() ==> (#[trigger] layers@[l]).wf(),
    ensures
        mask_fits(mask@, layers@),
        chance.never() ==> forall|l: int, r: int, c: int|
            0 <= l < mask@.len() && 0 <= r < mask@[l].spec_height() && 0 <= c < mask@[l].spec_width()
                ==> !#[trigger] mask@[l].at(r, c),
        chance.always() ==> forall|l: int, r: int, c: int|
            0 <= l < mask@.len() && 0 <= r < mask@[l].spec_height() && 0 <= c < mask@[l].spec_width()
                ==> #[trigger] mask@[l].at(r, c),
{
    let mut mask: Vec<Matrix<bool>> = Vec::new();
    let mut l: usize = 0;
    while l < layers.len()
        invariant
            chance.wf(),
            forall|k: int| 0 <= k < layers@.len() ==> (#[trigger] layers@[k]).wf(),
            l <= layers@.len(),
            mask@.len() == l,
            forall|k: int|
                0 <= k < l ==> (#[trigger] mask@[k]).wf() && mask@[k].same_shape(&layers@[k]),
            chance.never() ==> forall|k: int, r: int, c: int|
                0 <= k < l && 0 <= r < mask@[k].spec_height() && 0 <= c < mask@[k].spec_width()
                    ==> !#[trigger] mask@[k].at(r, c),
            chance.always() ==> forall|k: int, r: int, c: int|
                0 <= k < l && 0 <= r < mask@[k].spec_height() && 0 <= c < mask@[k].spec_width()
                    ==> #[trigger] mask@[k].at(r, c),
        decreases layers@.len() - l,
    {
        let layer = &layers[l];
        assert(layer.wf());
        let draw = |_r: usize, _c: usize| -> (b: bool)
            requires
                chance.wf(),
            ensures
                chance.never() ==> !b,
                chance.always() ==> b,
            { chance.occurs() };
        let m = Matrix::new_map(layer.get_height(), layer.get_width(), draw);
        assert forall|r: int, c: int| 0 <= r < m.spec_height() && 0 <= c < m.spec_width() implies draw.ensures(
            (r as usize, c as usize),
            #[trigger] m.at(r, c),
        ) by {
            assert(draw.ensures((r as usize, c as usize), m.at(r as usize as int, c as usize as int)));
        }
        mask.push(m);
        l = l + 1;
    }
    mask
}

/// Each cell of `x` where the coin is true, else the cell of `y`.
fn choose_cells<T: Copy>(x: &Matrix<T>, y: &Matrix<T>, coins: &Matrix<bool>) -> (m: Matrix<T>)
    requires
        x.wf(),
        y.wf(),
        coins.wf(),
        x.same_shape(y),
        coins.same_shape(x),
    ensures
        m.wf(),
        cells_chosen(m, *x, *y, *coins),
{
    let rows = x.get_height();
    let cols = x.get_width();
    let pick = |r: usize, c: usize| -> (v: T)
        requires
            r < rows,
            c < cols,
        ensures
            v == if coins.at(r as int, c as int) {
                x.at(r as int, c as int)
            } else {
                y.at(r as int, c as int)
            },
        {
            if coins.get(r, c) {
                x.get(r, c)
            } else {
                y.get(r, c)
            }
        };
    let m = Matrix::new_map(rows, cols, pick);
    assert forall|r: int, c: int| 0 <= r < rows && 0 <= c < cols implies #[trigger] m.at(r, c)
        == if coins.at(r, c) {
        x.at(r, c)
    } else {
        y.at(r, c)
    } by {
        assert(pick.ensures((r as usize, c as usize), m.at(r as usize as int, c as usize as int)));
    }
    m
}

/// `x` with each cell whose flip is true replaced by `perturb` of it.
fn flip_cells<T: Copy, P: Fn(T) -> T>(x: &Matrix<T>, flips: &Matrix<bool>, perturb: &P) -> (m: Matrix<T>)
    requires
        x.wf(),
        flips.wf(),
        flips.same_shape(x),
        forall|v: T| #[trigger] perturb.requires((v,)),
    ensures
        m.wf(),
        cells_flipped(m, *x, *flips, *perturb),
{
    let rows = x.get_height();
    let cols = x.get_width();
    let change = |r: usize, c: usize| -> (v: T)
        requires
            r < rows,
            c < cols,
        ensures
            if flips.at(r as int, c as int) {
                perturb.ensures((x.at(r as int, c as int),), v)
            } else {
                v == x.at(r as int, c as int)
            },
        {
            let v = x.get(r, c);
            if flips.get(r, c) {
                perturb(v)
            } else {
                v
            }
        };
    let m = Matrix::new_map(rows, cols, change);
    assert forall|r: int, c: int| 0 <= r < rows && 0 <= c < cols implies change.ensures(
        (r as usize, c as usize),
        #[trigger] m.at(r, c),
    ) by {
        assert(change.ensures((r as usize, c as usize), m.at(r as usize as int, c as usize as int)));
    }
    m
}

/// A cell chosen from `x` or `y` is one of the two.
proof fn lemma_chosen_picked<T>(a: Matrix<T>, x: Matrix<T>, y: Matrix<T>, coins: Matrix<bool>)
    requires
        cells_chosen(a, x, y, coins),
    ensures
        cells_picked(a, x, y),
{
    assert forall|r: int, c: int| 0 <= r < a.spec_height() && 0 <= c < a.spec_width() implies #[trigger] a.at(r, c)
        == x.at(r, c) || a.at(r, c) == y.at(r, c) by {
        assert(a.at(r, c) == if coins.at(r, c) {
            x.at(r, c)
        } else {
            y.at(r, c)
        });
    }
}

/// Cells flipped by a mask drawn with `chance` are kept or perturbed; all
/// kept when it never happens, all perturbed when it always does.
proof fn lemma_flipped_agrees<T, P: Fn(T) -> T>(
    a: Matrix<T>,
    x: Matrix<T>,
    flips: Matrix<bool>,
    chance: Chance,
    perturb: P,
)
    requires
        cells_flipped(a, x, flips, perturb),
        flips.same_shape(&x),
        chance.never() ==> forall|r: int, c: int|
            0 <= r < flips.spec_height() && 0 <= c < flips.spec_width() ==> !#[trigger] flips.at(r, c),
        chance.always() ==> forall|r: int, c: int|
            0 <= r < flips.spec_height() && 0 <= c < flips.spec_width() ==> #[trigger] flips.at(r, c),
    ensures
        cells_agree(a, x, |n: T, o: T| n == o || perturb.ensures((o,), n)),
        chance.never() ==> cells_agree(a, x, |n: T, o: T| n == o),
        chance.always() ==> cells_agree(a, x, |n: T, o: T| perturb.ensures((o,), n)),
{
    let any = |n: T, o: T| n == o || perturb.ensures((o,), n);
    let same = |n: T, o: T| n == o;
    let all = |n: T, o: T| perturb.ensures((o,), n);
    assert forall|r: int, c: int| 0 <= r < a.spec_height() && 0 <= c < a.spec_width() implies #[trigger] any(
        a.at(r, c),
        x.at(r, c),
    ) by {
        assert(if flips.at(r, c) {
            perturb.ensures((x.at(r, c),), a.at(r, c))
        } else {
            a.at(r, c) == x.at(r, c)
        });
    }
    if chance.never() {
        assert forall|r: int, c: int| 0 <= r < a.spec_height() && 0 <= c < a.spec_width() implies #[trigger] same(
            a.at(r, c),
            x.at(r, c),
        ) by {
            assert(!flips.at(r, c));
            assert(a.at(r, c) == x.at(r, c));
        }
    }
    if chance.always() {
        assert forall|r: int, c: int| 0 <= r < a.spec_height() && 0 <= c < a.spec_width() implies #[trigger] all(
            a.at(r, c),
            x.at(r, c),
        ) by {
            assert(flips.at(r, c));
            assert(perturb.ensures((x.at(r, c),), a.at(r, c)));
        }
    }
}

/// Merging a network with itself gives back the same scalars, whichever
/// way each coin fell.
pub proof fn lemma_merge_with_itself<T>(net: Network<T>, child: Network<T>)
    requires
        child.picks_from(&net, &net),
    ensures
        child.agrees_with(&net, |n: T, o: T| n == o),
{
    let same = |n: T, o: T| n == o;
    assert forall|l: int| 0 <= l < child.spec_weights().len() implies cells_agree(
        #[trigger] child.spec_weights()[l],
        net.spec_weights()[l],
        same,
    ) by {
        let a = child.spec_weights()[l];
        let b = net.spec_weights()[l];
        assert(cells_picked(a, b, b));
        assert forall|r: int, c: int| 0 <= r < a.spec_height() && 0 <= c < a.spec_width() implies #[trigger] same(
            a.at(r, c),
            b.at(r, c),
        ) by {
            assert(a.at(r, c) == b.at(r, c) || a.at(r, c) == b.at(r, c));
        }
    }
    assert forall|l: int| 0 <= l < child.spec_biases().len() implies cells_agree(
        #[trigger] child.spec_biases()[l],
        net.spec_biases()[l],
        same,
    ) by {
        let a = child.spec_biases()[l];
        let b = net.spec_biases()[l];
        assert(cells_picked(a, b, b));
        assert forall|r: int, c: int| 0 <= r < a.spec_height() && 0 <= c < a.spec_width() implies #[trigger] same(
            a.at(r, c),
            b.at(r, c),
        ) by {
            assert(a.at(r, c) == b.at(r, c) || a.at(r, c) == b.at(r, c));
        }
    }
}

} // verus!
