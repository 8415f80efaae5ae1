use vstd::prelude::*;
use crate::agent::{count_true, Agent, Binary};
use crate::chance::random_below;

verus! {

/// One generation of agents.
#[derive(Debug)]
pub struct Population<T> {
    agents: Vec<T>,
}

/// `ranking` lists each index below `n` exactly once.
pub open spec fn is_ranking(ranking: Seq<usize>, n: int) -> bool {
    &&& ranking.len() == n
    &&& forall|i: int| 0 <= i < n ==> #[trigger] ranking[i] < n
    &&& forall|i: int, j: int| 0 <= i < j < n ==> #[trigger] ranking[i] != #[trigger] ranking[j]
}

/// The number of agents kept as parents: a tenth of `n`, rounded up.
pub open spec fn spec_elite_count(n: int) -> int {
    (n + 9) / 10
}

/// `v` is one of the last `elite` entries of `ranking`.
pub open spec fn in_elite(ranking: Seq<usize>, elite: int, v: usize) -> bool {
    exists|k: int| ranking.len() - elite <= k < ranking.len() && #[trigger] ranking[k] == v
}

/// The number of agents kept as parents out of `n`: a tenth, rounded up.
pub fn elite_count(n: usize) -> (e: usize)
    ensures
        e == spec_elite_count(n as int),
        n >= 1 ==> 1 <= e <= n,
{
    n / 10 + if n % 10 == 0 {
        0
    } else {
        1
    }
}

/// Whether `ranking` lists each index below `n` exactly once.
pub fn check_ranking(ranking: &Vec<usize>, n: usize) -> (r: bool)
    ensures
        r == is_ranking(ranking@, n as int),
{
    if ranking.len() != n {
        return false;
    }
    let mut seen: Vec<bool> = Vec::new();
    let mut k: usize = 0;
    while k < n
        invariant
            k <= n,
            seen@.len() == k,
            forall|j: int| 0 <= j < k ==> !(#[trigger] seen@[j]),
        decreases n - k,
    {
        seen.push(false);
        k = k + 1;
    }
    let mut i: usize = 0;
    while i < n
        invariant
            ranking@.len() == n,
            seen@.len() == n,
            i <= n,
            forall|j: int| 0 <= j < i ==> #[trigger] ranking@[j] < n,
            forall|j: int, l: int| 0 <= j < l < i ==> #[trigger] ranking@[j] != #[trigger] ranking@[l],
            forall|v: int|
                0 <= v < n ==> (#[trigger] seen@[v] <==> exists|j: int|
                    0 <= j < i && #[trigger] ranking@[j] == v),
        decreases n - i,
    {
        let v = ranking[i];
        if v >= n {
            return false;
        }
        if seen[v] {
            proof {
                let j = choose|j: int| 0 <= j < i && #[trigger] ranking@[j] == v;
                assert(ranking@[j] == ranking@[i as int]);
            }
            return false;
        }
        seen.set(v, true);
        proof {
            assert forall|w: int| 0 <= w < n implies (#[trigger] seen@[w] <==> exists|j: int|
                0 <= j < i + 1 && #[trigger] ranking@[j] == w) by {
                if w == v {
                    assert(ranking@[i as int] == w);
                } else if seen@[w] {
                    let j = choose|j: int| 0 <= j < i && #[trigger] ranking@[j] == w;
                    assert(0 <= j < i + 1 && ranking@[j] == w);
                }
            }
        }
        i = i + 1;
    }
    true
}

/// The parents of the next generation for the given draws: first the best
/// agent, the last of `ranking`, then for each draw `k` the agent `k` places
/// below the best. Draws that reach past the elite (the last
/// `elite_count(n)` of `ranking`) are refused.
pub fn plan_from_picks(ranking: &Vec<usize>, picks: &Vec<usize>) -> (plan: Option<Vec<usize>>)
    requires
        ranking@.len() >= 1,
    ensures
        plan is Some <==> forall|i: int|
            0 <= i < picks@.len() ==> #[trigger] picks@[i] < spec_elite_count(ranking@.len() as int),
        plan matches Some(p) ==> {
            &&& p@.len() == picks@.len() + 1
            &&& p@[0] == ranking@.last()
            &&& forall|i: int|
                0 <= i < picks@.len() ==> p@[i + 1] == ranking@[ranking@.len() - 1 - #[trigger] picks@[i]]
        },
{
    let n = ranking.len();
    let elite = elite_count(n);
    let mut plan: Vec<usize> = Vec::new();
    plan.push(ranking[n - 1]);
    let mut i: usize = 0;
    while i < picks.len()
        invariant
            n == ranking@.len(),
            elite == spec_elite_count(n as int),
            1 <= elite <= n,
            i <= picks@.len(),
            plan@.len() == i + 1,
            plan@[0] == ranking@.last(),
            forall|j: int| 0 <= j < i ==> #[trigger] picks@[j] < elite,
            forall|j: int| 0 <= j < i ==> plan@[j + 1] == ranking@[n - 1 - #[trigger] picks@[j]],
        decreases picks@.len() - i,
    {
        let k = picks[i];
        if k >= elite {
            return None;
        }
        plan.push(ranking[n - 1 - k]);
        i = i + 1;
    }
    Some(plan)
}

/// The parents of the next generation: first the best agent, the last of
/// `ranking`, then `n - 1` agents drawn uniformly, with replacement, from the
/// elite (the last `elite_count(n)` of `ranking`).
pub fn breeding_plan(ranking: &Vec<usize>) -> (plan: Vec<usize>)
    requires
        ranking@.len() >= 1,
    ensures
        plan@.len() == ranking@.len(),
        plan@[0] == ranking@.last(),
        forall|i: int|
            0 <= i < plan@.len() ==> in_elite(
                ranking@,
                spec_elite_count(ranking@.len() as int),
                #[trigger] plan@[i],
            ),
{
    let n = ranking.len();
    let elite = elite_count(n);
    let mut picks: Vec<usize> = Vec::new();
    while picks.len() < n - 1
        invariant
            n == ranking@.len(),
            n >= 1,
            elite == spec_elite_count(n as int),
            1 <= elite <= n,
            picks@.len() <= n - 1,
            forall|j: int| 0 <= j < picks@.len() ==> #[trigger] picks@[j] < elite,
        decreases n - 1 - picks@.len(),
    {
        picks.push(random_below(elite));
    }
    let plan = plan_from_picks(ranking, &picks).unwrap();
    assert forall|i: int| 0 <= i < plan@.len() implies in_elite(
        ranking@,
        elite as int,
        #[trigger] plan@[i],
    ) by {
        if i == 0 {
            assert(ranking@[n - 1] == plan@[0]);
        } else {
            assert(plan@[i] == ranking@[n - 1 - picks@[i - 1]]);
        }
    }
    plan
}

/// With the agents ranked from worst to best score, the last of the
/// ranking scores at least as well as every agent, so the copy of it that
/// opens the next generation keeps the best score.
pub proof fn lemma_ranking_ends_with_best(scores: Seq<int>, ranking: Seq<usize>)
    requires
        is_ranking(ranking, scores.len() as int),
        scores.len() >= 1,
        forall|i: int, j: int|
            0 <= i < j < ranking.len() ==> scores[#[trigger] ranking[i] as int]
                <= scores[#[trigger] ranking[j] as int],
    ensures
        forall|a: int|
            0 <= a < scores.len() ==> #[trigger] scores[a] <= scores[ranking.last() as int],
{
    let n = scores.len() as int;
    assert forall|a: int| 0 <= a < n implies #[trigger] scores[a] <= scores[ranking.last() as int] by {
        let pos = lemma_ranking_covers(ranking, n, a);
        if pos < n - 1 {
            assert(scores[ranking[pos] as int] <= scores[ranking[n - 1] as int]);
        }
    }
}

/// Under any score that a copy shares with its original, with the agents
/// ranked from worst to best score, the copy that opens the next generation
/// scores at least as well as every agent of the old one: breeding never
/// lowers the best score.
pub proof fn lemma_breeding_keeps_best_score<T: Clone>(
    agents: Seq<T>,
    ranking: Seq<usize>,
    first: T,
    score: spec_fn(T) -> int,
)
    requires
        agents.len() >= 1,
        is_ranking(ranking, agents.len() as int),
        forall|i: int, j: int|
            0 <= i < j < ranking.len() ==> score(agents[#[trigger] ranking[i] as int]) <= score(
                agents[#[trigger] ranking[j] as int],
            ),
        forall|a: T, b: T| #[trigger] call_ensures(T::clone, (&a,), b) ==> score(b) == score(a),
        call_ensures(T::clone, (&agents[ranking.last() as int],), first),
    ensures
        forall|a: int| 0 <= a < agents.len() ==> score(#[trigger] agents[a]) <= score(first),
{
    let scores = Seq::new(agents.len(), |i: int| score(agents[i]));
    assert forall|i: int, j: int| 0 <= i < j < ranking.len() implies scores[#[trigger] ranking[i] as int]
        <= scores[#[trigger] ranking[j] as int] by {
        assert(score(agents[ranking[i] as int]) <= score(agents[ranking[j] as int]));
    }
    lemma_ranking_ends_with_best(scores, ranking);
    assert forall|a: int| 0 <= a < agents.len() implies score(#[trigger] agents[a]) <= score(first) by {
        assert(scores[a] <= scores[ranking.last() as int]);
    }
}

/// With bit genomes ranked from fewest to most set bits, the copy that opens
/// the next generation has as many set bits as the best agent of the old one:
/// breeding never lowers the best fitness.
pub proof fn lemma_breeding_keeps_best(agents: Seq<Binary>, ranking: Seq<usize>, first: Binary)
    requires
        agents.len() >= 1,
        is_ranking(ranking, agents.len() as int),
        forall|i: int, j: int|
            0 <= i < j < ranking.len() ==> count_true(agents[#[trigger] ranking[i] as int].spec_vals())
                <= count_true(agents[#[trigger] ranking[j] as int].spec_vals()),
        call_ensures(<Binary as Clone>::clone, (&agents[ranking.last() as int],), first),
    ensures
        forall|a: int|
            0 <= a < agents.len() ==> count_true(#[trigger] agents[a].spec_vals()) <= count_true(
                first.spec_vals(),
            ),
{
    let scores = Seq::new(agents.len(), |i: int| count_true(agents[i].spec_vals()) as int);
    assert forall|i: int, j: int| 0 <= i < j < ranking.len() implies scores[#[trigger] ranking[i] as int]
        <= scores[#[trigger] ranking[j] as int] by {
        assert(count_true(agents[ranking[i] as int].spec_vals()) <= count_true(
            agents[ranking[j] as int].spec_vals(),
        ));
    }
    lemma_ranking_ends_with_best(scores, ranking);
    assert forall|a: int| 0 <= a < agents.len() implies count_true(#[trigger] agents[a].spec_vals())
        <= count_true(first.spec_vals()) by {
        assert(scores[a] <= scores[ranking.last() as int]);
    }
}

/// Every index below `n` stands somewhere in a ranking of `n`.
proof fn lemma_ranking_covers(ranking: Seq<usize>, n: int, a: int) -> (pos: int)
    requires
        is_ranking(ranking, n),
        0 <= a < n,
    ensures
        0 <= pos < n,
        ranking[pos] == a,
{
    let mapped = ranking.map_values(|v: usize| v as int);
    if !(exists|i: int| 0 <= i < n && #[trigger] ranking[i] == a) {
        let img = mapped.to_set();
        let full = vstd::set_lib::set_int_range(0, n);
        let missing = full.remove(a);
        assert forall|v: int| img.contains(v) implies missing.contains(v) by {
            let k = choose|k: int| 0 <= k < mapped.len() && #[trigger] mapped[k] == v;
            assert(ranking[k] as int == v);
        }
        assert(img.subset_of(missing));
        vstd::set_lib::lemma_int_range(0, n);
        assert(mapped.no_duplicates()) by {
            assert forall|i: int, j: int|
                0 <= i < mapped.len() && 0 <= j < mapped.len() && i != j implies #[trigger] mapped[i]
                != #[trigger] mapped[j] by {
                if i < j {
                    assert(ranking[i] != ranking[j]);
                } else {
                    assert(ranking[j] != ranking[i]);
                }
            }
        }
        mapped.unique_seq_to_set();
        assert(missing.len() == n - 1);
        vstd::set_lib::lemma_len_subset(img, missing);
        assert(false);
    }
    choose|i: int| 0 <= i < n && #[trigger] ranking[i] == a
}

impl<T: Agent + Clone> Population<T> {
    pub closed spec fn spec_agents(&self) -> Seq<T> {
        self.agents@
    }

    pub fn new(agents: Vec<T>) -> (p: Self)
        ensures
            p.spec_agents() == agents@,
    {
        Population { agents }
    }

    pub fn get_agents(&self) -> (a: &[T])
        ensures
            a@ == self.spec_agents(),
    {
        self.agents.as_slice()
    }

    /// The next generation, given `ranking`, the agents' indices from worst
    /// to best score: a copy of the best agent, then mutations of agents
    /// drawn uniformly, with replacement, from the best tenth (rounded up),
    /// up to the same size. Breeding needs at least two agents, and `ranking`
    /// must list each agent exactly once (`check_ranking` tells).
    pub fn breed(&self, ranking: &Vec<usize>) -> (next: Population<T>)
        requires
            self.spec_agents().len() >= 2,
            is_ranking(ranking@, self.spec_agents().len() as int),
        ensures
            next.spec_agents().len() == self.spec_agents().len(),
            call_ensures(T::clone, (&self.spec_agents()[ranking@.last() as int],), next.spec_agents()[0]),
            forall|i: int|
                1 <= i < next.spec_agents().len() ==> exists|k: int|
                    self.spec_agents().len() - spec_elite_count(self.spec_agents().len() as int) <= k
                        < self.spec_agents().len() && call_ensures(
                        T::mutate,
                        (&self.spec_agents()[ranking@[k] as int],),
                        #[trigger] next.spec_agents()[i],
                    ),
    {
        let n = self.agents.len();
        let plan = breeding_plan(ranking);
        let mut agents: Vec<T> = Vec::new();
        let first = plan[0];
        assert(first < n) by {
            let k = choose|k: int| n - spec_elite_count(n as int) <= k < n && #[trigger] ranking@[k]
                == plan@[0];
        }
        agents.push(self.agents[first].clone());
        let mut i: usize = 1;
        while i < n
            invariant
                n == self.agents@.len(),
                plan@.len() == n,
                is_ranking(ranking@, n as int),
                forall|j: int|
                    0 <= j < plan@.len() ==> in_elite(
                        ranking@,
                        spec_elite_count(n as int),
                        #[trigger] plan@[j],
                    ),
                1 <= i <= n,
                agents@.len() == i,
                plan@[0] == ranking@.last(),
                call_ensures(T::clone, (&self.agents@[ranking@.last() as int],), agents@[0]),
                forall|j: int|
                    1 <= j < i ==> exists|k: int|
                        n - spec_elite_count(n as int) <= k < n && call_ensures(
                            T::mutate,
                            (&self.agents@[ranking@[k] as int],),
                            #[trigger] agents@[j],
                        ),
            decreases n - i,
        {
            let parent = plan[i];
            assert(parent < n) by {
                assert(in_elite(ranking@, spec_elite_count(n as int), plan@[i as int]));
                let k = choose|k: int| n - spec_elite_count(n as int) <= k < n && #[trigger] ranking@[k]
                    == plan@[i as int];
            }
            let child = self.agents[parent].mutate();
            proof {
                let k = choose|k: int| n - spec_elite_count(n as int) <= k < n && #[trigger] ranking@[k]
                    == plan@[i as int];
                assert(call_ensures(T::mutate, (&self.agents@[ranking@[k] as int],), child));
            }
            agents.push(child);
            i = i + 1;
        }
        Population { agents }
    }
}

} // verus!
