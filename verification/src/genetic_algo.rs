//! The evolutionary loop and its operators: random initialization, parallel
//! fitness evaluation, elitism, tournament selection, partially-mapped
//! crossover and swap mutation, all preserving the chromosome invariant.

use vstd::prelude::*;
use vstd::pervasive::VecAdditionalExecFns;

use rayon::iter::IntoParallelRefIterator;
use rayon::iter::ParallelIterator;

use crate::chromosome::{
    base_chromosome, chromosomes_equal, clone_chromosome, lemma_nodup_same_set_to_multiset,
    lemma_swap_to_multiset, lemma_valid_chromosome_facts, non_depot_indices, valid_chromosome,
};
use crate::data::{Cost, Data, NodeIndex};
use crate::rng::{rand_range, rand_ratio, shuffle};

verus! {

broadcast use {vstd::seq_lib::group_to_multiset_ensures, vstd::multiset::group_multiset_axioms};

/// The denominator of every probability knob: rates are parts per thousand.
pub const RATE_DENOMINATOR: u32 = 1000;

pub type IterationNumber = usize;

/// The outcome of a search: the best permutation ever observed and the
/// ordered history of (generation, cost) improvement events.
pub struct BestPath {
    pub best_path: Vec<NodeIndex>,
    pub best_solution_performance: Vec<(usize, Cost)>,
}

/// The tuning knobs of the evolutionary loop. The caller owns them; a
/// common choice derives the population size from the instance size.
pub struct Config {
    pub population_size: usize,
    pub survivor_count: usize,
    pub elite_count: usize,
    pub crossover_rate_ppt: u32,
    pub mutation_rate_ppt: u32,
}

impl Config {
    /// What the loop needs of its knobs: at least one elite but fewer than
    /// the population holds, at least two tournament survivors (so each
    /// generation breeds new offspring), and probabilities at most one.
    pub open spec fn wf(self) -> bool {
        &&& 1 <= self.elite_count
        &&& self.elite_count < self.population_size
        &&& 2 <= self.survivor_count
        &&& self.crossover_rate_ppt <= RATE_DENOMINATOR
        &&& self.mutation_rate_ppt <= RATE_DENOMINATOR
    }
}

/// Relies on rayon's parallel iterator: `map` yields one result per input
/// chromosome and the indexed `collect` keeps the input order, so entry `i`
/// is the verified `calculate_cost` of chromosome `i`; the closure only
/// calls that verified function on an immutable snapshot.
#[verifier::external_body]
fn parallel_costs(data: &Data, population: &Vec<Vec<NodeIndex>>) -> (costs: Vec<Cost>)
    requires
        data.wf(),
        forall|i: int|
            0 <= i < population@.len() ==> valid_chromosome(*data, (#[trigger] population@[i])@),
    ensures
        costs@.len() == population@.len(),
        forall|i: int|
            0 <= i < costs@.len() ==> (#[trigger] costs@[i]) as int == data.cost_spec(
                population@[i]@,
            ),
{
    population.par_iter().map(|chromosome| data.calculate_cost(chromosome)).collect()
}

/// Relies on pdqselect::select_by_key (pattern-defeating quickselect): the
/// pair at slot `k` ends in its sorted-by-key position, every pair before
/// it has a key no greater, every pair after a key no less, and the vector
/// keeps the same pairs; the closure only picks the key field.
#[verifier::external_body]
fn select_by_cost(v: &mut Vec<(Cost, usize)>, k: usize)
    requires
        k < old(v)@.len(),
    ensures
        final(v)@.len() == old(v)@.len(),
        final(v)@.to_multiset() == old(v)@.to_multiset(),
        forall|i: int| 0 <= i < k ==> (#[trigger] final(v)@[i]).0 <= final(v)@[k as int].0,
        forall|j: int|
            k < j < final(v)@.len() ==> final(v)@[k as int].0 <= (#[trigger] final(v)@[j]).0,
{
    pdqselect::select_by_key(v.as_mut_slice(), k, |p: &(Cost, usize)| p.0);
}

/// Whether `survivor` is gene-for-gene one of the chromosomes of `pool`.
pub open spec fn drawn_from(survivor: Seq<NodeIndex>, pool: Seq<Vec<NodeIndex>>) -> bool {
    exists|i: int| 0 <= i < pool.len() && survivor == (#[trigger] pool[i])@
}

/// What elitism promises: `sel` lists the distinct population slots the
/// elites were copied from, in order, and every selected slot's cost is no
/// greater than the cost of every slot left behind.
pub open spec fn elite_selection(
    sel: Seq<int>,
    elites: Seq<Vec<NodeIndex>>,
    population: Seq<Vec<NodeIndex>>,
    costs: Seq<Cost>,
) -> bool {
    &&& sel.len() == elites.len()
    &&& sel.no_duplicates()
    &&& forall|k: int| 0 <= k < sel.len() ==> 0 <= #[trigger] sel[k] < population.len()
    &&& forall|k: int| 0 <= k < sel.len() ==> (elites[k])@ == population[#[trigger] sel[k]]@
    &&& forall|k: int, j: int|
        #![trigger sel[k], costs[j]]
        0 <= k < sel.len() && 0 <= j < costs.len() && !sel.contains(j) ==> costs[sel[k]]
            <= costs[j]
}

/// Elitism: copies out `elite_count` chromosomes from distinct slots whose
/// costs are no greater than the cost of anything left behind.
#[verifier::loop_isolation(false)]
pub fn select_elites(
    population: &Vec<Vec<NodeIndex>>,
    costs: &Vec<Cost>,
    elite_count: usize,
) -> (elites: Vec<Vec<NodeIndex>>)
    requires
        costs@.len() == population@.len(),
        elite_count < population@.len(),
    ensures
        elites@.len() == elite_count,
        forall|t: int|
            0 <= t < elites@.len() ==> drawn_from((#[trigger] elites@[t])@, population@),
        exists|sel: Seq<int>| #[trigger] elite_selection(sel, elites@, population@, costs@),
{
    let mut pairs: Vec<(Cost, usize)> = Vec::new();
    let mut i: usize = 0;
    while i < population.len()
        invariant
            i <= population@.len(),
            pairs@.len() == i,
            forall|t: int| 0 <= t < i ==> #[trigger] pairs@[t] == (costs@[t], t as usize),
        decreases population@.len() - i,
    {
        pairs.push((costs[i], i));
        i = i + 1;
    }
    let ghost pairs0 = pairs@;
    select_by_cost(&mut pairs, elite_count);
    proof {
        assert forall|t: int| 0 <= t < pairs@.len() implies (#[trigger] pairs@[t]).1
            < population@.len() && costs@[pairs@[t].1 as int] == pairs@[t].0 by {
            assert(pairs@.contains(pairs@[t]));
            assert(pairs@.to_multiset().count(pairs@[t]) > 0);
            assert(pairs0.to_multiset().count(pairs@[t]) > 0);
            assert(pairs0.contains(pairs@[t]));
            let t0 = choose|t0: int| 0 <= t0 < pairs0.len() && pairs0[t0] == pairs@[t];
            assert(pairs0[t0] == (costs@[t0], t0 as usize));
        }
    }
    let mut elites: Vec<Vec<NodeIndex>> = Vec::new();
    let mut t: usize = 0;
    while t < elite_count
        invariant
            t <= elite_count,
            elite_count < population@.len(),
            costs@.len() == population@.len(),
            pairs@.len() == population@.len(),
            forall|q: int|
                0 <= q < pairs@.len() ==> (#[trigger] pairs@[q]).1 < population@.len()
                    && costs@[pairs@[q].1 as int] == pairs@[q].0,
            elites@.len() == t,
            forall|q: int|
                0 <= q < t ==> (#[trigger] elites@[q])@ == population@[pairs@[q].1 as int]@,
        decreases elite_count - t,
    {
        let idx = pairs[t].1;
        elites.push(clone_chromosome(&population[idx]));
        t = t + 1;
    }
    proof {
        assert(pairs0.no_duplicates()) by {
            assert forall|t1: int, t2: int|
                0 <= t1 < pairs0.len() && 0 <= t2 < pairs0.len() && t1 != t2 implies pairs0[t1]
                != pairs0[t2] by {
                assert(pairs0[t1].1 == t1 as usize);
                assert(pairs0[t2].1 == t2 as usize);
            }
        }
        pairs0.lemma_multiset_has_no_duplicates();
        assert forall|x: (Cost, usize)| pairs@.to_multiset().contains(x) implies pairs@.to_multiset().count(x) == 1 by {
            assert(pairs0.to_multiset().count(x) > 0);
            assert(pairs0.contains(x));
        }
        pairs@.lemma_multiset_has_no_duplicates_conv();
        let sel = Seq::new(elite_count as nat, |k: int| pairs@[k].1 as int);
        assert(sel.no_duplicates()) by {
            assert forall|k1: int, k2: int|
                0 <= k1 < sel.len() && 0 <= k2 < sel.len() && k1 != k2 implies sel[k1]
                != sel[k2] by {
                assert(pairs@[k1] != pairs@[k2]);
                assert(pairs@[k1].0 == costs@[pairs@[k1].1 as int]);
                assert(pairs@[k2].0 == costs@[pairs@[k2].1 as int]);
            }
        }
        assert forall|k: int, j: int|
            0 <= k < sel.len() && 0 <= j < costs@.len() && !sel.contains(j)
                implies costs@[sel[k]] <= costs@[j] by {
            assert(pairs0[j] == (costs@[j], j as usize));
            assert(pairs0.contains(pairs0[j]));
            assert(pairs0.to_multiset().count(pairs0[j]) > 0);
            assert(pairs@.to_multiset().count(pairs0[j]) > 0);
            assert(pairs@.contains(pairs0[j]));
            let t1 = choose|t1: int| 0 <= t1 < pairs@.len() && pairs@[t1] == pairs0[j];
            assert(costs@[sel[k]] == pairs@[k].0);
            if t1 < elite_count {
                assert(sel[t1] == j);
                assert(sel.contains(j));
                assert(false);
            } else if t1 == elite_count {
                assert(pairs@[k].0 <= pairs@[t1].0);
            } else {
                assert(pairs@[k].0 <= pairs@[elite_count as int].0);
                assert(pairs@[elite_count as int].0 <= pairs@[t1].0);
            }
        }
        assert(elite_selection(sel, elites@, population@, costs@));
    }
    elites
}

/// Produces `size` chromosomes, each an independently shuffled permutation
/// of all non-depot indices.
#[verifier::loop_isolation(false)]
pub fn initial_population(data: &Data, size: usize, rng: &mut rand::rngs::SmallRng) -> (population:
    Vec<Vec<NodeIndex>>)
    requires
        data.wf(),
    ensures
        population@.len() == size,
        forall|i: int|
            0 <= i < population@.len() ==> valid_chromosome(*data, (#[trigger] population@[i])@),
{
    let base = non_depot_indices(data);
    let mut population: Vec<Vec<NodeIndex>> = Vec::new();
    let mut i: usize = 0;
    while i < size
        invariant
            i <= size,
            base@ == base_chromosome(*data),
            population@.len() == i,
            forall|q: int|
                0 <= q < i ==> valid_chromosome(*data, (#[trigger] population@[q])@),
        decreases size - i,
    {
        let mut c = clone_chromosome(&base);
        shuffle(&mut c, rng);
        population.push(c);
        i = i + 1;
    }
    population
}

/// Swaps the genes at two slots of a chromosome; the gene multiset is kept.
pub fn swap_genes(chromosome: &mut Vec<NodeIndex>, x: usize, y: usize)
    requires
        x < old(chromosome)@.len(),
        y < old(chromosome)@.len(),
    ensures
        final(chromosome)@.len() == old(chromosome)@.len(),
        final(chromosome)@ == old(chromosome)@.update(x as int, old(chromosome)@[y as int]).update(
            y as int,
            old(chromosome)@[x as int],
        ),
        final(chromosome)@.to_multiset() == old(chromosome)@.to_multiset(),
{
    let vx = chromosome[x];
    let vy = chromosome[y];
    chromosome.set(x, vy);
    chromosome.set(y, vx);
    proof {
        lemma_swap_to_multiset(old(chromosome)@, x as int, y as int);
    }
}

/// Walks the gene slots once; each time an independent draw with
/// probability `mutation_rate_ppt / 1000` fires, swaps two uniformly random
/// slots. A swap never breaks the permutation invariant, and a zero rate
/// never fires, leaving the chromosome untouched.
#[verifier::loop_isolation(false)]
pub fn mutate(chromosome: &mut Vec<NodeIndex>, rng: &mut rand::rngs::SmallRng, mutation_rate_ppt: u32)
    requires
        mutation_rate_ppt <= RATE_DENOMINATOR,
    ensures
        final(chromosome)@.len() == old(chromosome)@.len(),
        final(chromosome)@.to_multiset() == old(chromosome)@.to_multiset(),
        mutation_rate_ppt == 0 ==> final(chromosome)@ == old(chromosome)@,
{
    let len = chromosome.len();
    let mut i: usize = 0;
    while i < len
        invariant
            chromosome@.len() == len,
            mutation_rate_ppt <= RATE_DENOMINATOR,
            chromosome@.to_multiset() == old(chromosome)@.to_multiset(),
            mutation_rate_ppt == 0 ==> chromosome@ == old(chromosome)@,
        decreases len - i,
    {
        if rand_ratio(rng, mutation_rate_ppt, RATE_DENOMINATOR) {
            let x = rand_range(rng, 0, len);
            let y = rand_range(rng, 0, len);
            swap_genes(chromosome, x, y);
        }
        i = i + 1;
    }
}

/// The slot at which a chromosome holds `val`; the chromosome must contain
/// it.
#[verifier::loop_isolation(false)]
pub fn find_position(c: &Vec<NodeIndex>, val: NodeIndex) -> (pos: usize)
    requires
        c@.contains(val),
    ensures
        pos < c@.len(),
        c@[pos as int] == val,
{
    let mut i: usize = 0;
    while i < c.len()
        invariant
            i <= c@.len(),
            forall|k: int| 0 <= k < i ==> c@[k] != val,
        decreases c@.len() - i,
    {
        if c[i] == val {
            return i;
        }
        i = i + 1;
    }
    proof {
        let j = choose|j: int| 0 <= j < c@.len() && c@[j] == val;
        assert(false);
    }
    0
}

/// Whether the slots `left..=right` of `s` hold the gene `v` somewhere.
pub open spec fn in_swath(s: Seq<NodeIndex>, left: int, right: int, v: NodeIndex) -> bool {
    exists|k: int| left <= k <= right && s[k] == v
}

/// The chase step of PMX: from slot `p`, the slot of parent `b` that holds
/// parent `a`'s gene at `p`.
pub open spec fn fstep(a: Seq<NodeIndex>, b: Seq<NodeIndex>, p: int) -> int {
    b.index_of(a[p])
}

/// Both parents hold the same genes, each exactly once, and the swath is a
/// well-formed slot range.
pub open spec fn pmx_setup(a: Seq<NodeIndex>, b: Seq<NodeIndex>, left: int, right: int) -> bool {
    &&& a.len() == b.len()
    &&& 0 <= left <= right < a.len()
    &&& a.no_duplicates()
    &&& b.no_duplicates()
    &&& a.to_multiset() == b.to_multiset()
}

/// The slot-by-slot shape of a PMX offspring for the swath `left..=right`:
/// the swath holds parent `a`'s genes; an outside slot whose `b`-gene does
/// not occur in `a`'s swath keeps that gene; and every gene of `b`'s swath
/// that is missing from `a`'s swath reappears at a slot outside the swath
/// that held a duplicate of `a`'s swath genes.
pub open spec fn pmx_offspring_shape(
    a: Seq<NodeIndex>,
    b: Seq<NodeIndex>,
    left: int,
    right: int,
    off: Seq<NodeIndex>,
) -> bool {
    &&& forall|i: int| left <= i <= right ==> #[trigger] off[i] == a[i]
    &&& forall|p: int|
        0 <= p < off.len() && !(left <= p <= right) && !in_swath(a, left, right, b[p])
            ==> #[trigger] off[p] == b[p]
    &&& forall|p: int|
        left <= p <= right && !(#[trigger] in_swath(a, left, right, b[p])) ==> exists|t: int|
            0 <= t < off.len() && !(left <= t <= right) && off[t] == b[p] && in_swath(
                a,
                left,
                right,
                b[t],
            )
}

/// `fstep` lands on the unique slot of `b` holding `a[p]`.
pub proof fn lemma_chase_step(a: Seq<NodeIndex>, b: Seq<NodeIndex>, p: int)
    requires
        a.len() == b.len(),
        a.no_duplicates(),
        b.no_duplicates(),
        a.to_multiset() == b.to_multiset(),
        0 <= p < a.len(),
    ensures
        b.contains(a[p]),
        0 <= fstep(a, b, p) < b.len(),
        b[fstep(a, b, p)] == a[p],
        forall|q: int| 0 <= q < b.len() && b[q] == a[p] ==> q == fstep(a, b, p),
{
    assert(a.contains(a[p]));
    assert(a.to_multiset().count(a[p]) > 0);
    assert(b.to_multiset().count(a[p]) > 0);
    assert(b.contains(a[p]));
    let f = fstep(a, b, p);
    assert(0 <= f < b.len() && b[f] == a[p]);
    assert forall|q: int| 0 <= q < b.len() && b[q] == a[p] implies q == f by {
        if q != f {
            assert(b[q] != b[f]);
        }
    }
}

/// The chase step is injective over slots of `a`.
pub proof fn lemma_chase_injective(a: Seq<NodeIndex>, b: Seq<NodeIndex>, p1: int, p2: int)
    requires
        a.len() == b.len(),
        a.no_duplicates(),
        b.no_duplicates(),
        a.to_multiset() == b.to_multiset(),
        0 <= p1 < a.len(),
        0 <= p2 < a.len(),
        fstep(a, b, p1) == fstep(a, b, p2),
    ensures
        p1 == p2,
{
    lemma_chase_step(a, b, p1);
    lemma_chase_step(a, b, p2);
    if p1 != p2 {
        assert(a[p1] != a[p2]);
    }
}

/// The record of the relocation pass of PMX, over the swath `left..=right`:
/// `visited` holds the swath slots the chases have walked, `finals` the
/// slots outside the swath that received a displaced gene, and `placed`
/// maps each such slot to the swath slot whose `b`-gene it received. All
/// chase starts processed so far lie below `bound`.
pub open spec fn pmx_inv(
    a: Seq<NodeIndex>,
    b: Seq<NodeIndex>,
    left: int,
    right: int,
    bound: int,
    off: Seq<NodeIndex>,
    visited: Set<int>,
    finals: Set<int>,
    placed: Map<int, int>,
) -> bool {
    &&& off.len() == a.len()
    &&& forall|k: int| left <= k <= right ==> #[trigger] off[k] == a[k]
    &&& visited.finite()
    &&& finals.finite()
    &&& forall|q: int| #[trigger] visited.contains(q) ==> left <= q <= right
    &&& forall|q: int|
        #[trigger] visited.contains(q) ==> ((in_swath(a, left, right, b[q]) && exists|q2: int|
            visited.contains(q2) && fstep(a, b, q2) == q) || (!in_swath(a, left, right, b[q])
            && left <= q < bound))
    &&& placed.dom() == finals
    &&& forall|t: int| #[trigger] finals.contains(t) ==> 0 <= t < a.len() && !(left <= t <= right)
    &&& forall|t: int|
        #[trigger] finals.contains(t) ==> left <= placed[t] <= right && placed[t] < bound
            && !in_swath(a, left, right, b[placed[t]]) && off[t] == b[placed[t]] && in_swath(
            a,
            left,
            right,
            b[t],
        )
    &&& forall|t1: int, t2: int|
        finals.contains(t1) && finals.contains(t2) && t1 != t2 ==> placed[t1] != placed[t2]
    &&& forall|t: int|
        0 <= t < a.len() && !(left <= t <= right) && !finals.contains(t) ==> #[trigger] off[t]
            == b[t]
    &&& forall|t: int|
        #[trigger] finals.contains(t) ==> exists|q: int| visited.contains(q) && fstep(a, b, q) == t
}

/// Every chase start below `bound` has been walked and has had its gene
/// placed at some slot outside the swath.
pub open spec fn pmx_starts_done(
    a: Seq<NodeIndex>,
    b: Seq<NodeIndex>,
    left: int,
    right: int,
    bound: int,
    visited: Set<int>,
    finals: Set<int>,
    placed: Map<int, int>,
) -> bool {
    &&& forall|q: int|
        left <= q < bound && !(#[trigger] in_swath(a, left, right, b[q])) ==> visited.contains(q)
    &&& forall|q: int|
        left <= q < bound && !(#[trigger] in_swath(a, left, right, b[q])) ==> exists|t: int|
            finals.contains(t) && placed[t] == q
}

/// Walking the chase correspondence backwards from a swath slot whose step
/// leaves the swath always reaches a slot the relocation pass has walked:
/// `chain` is the backward walk collected so far, and its head is the slot
/// whose forward step exits the swath.
proof fn lemma_backchain(
    a: Seq<NodeIndex>,
    b: Seq<NodeIndex>,
    left: int,
    right: int,
    visited: Set<int>,
    finals: Set<int>,
    chain: Seq<int>,
)
    requires
        pmx_setup(a, b, left, right),
        forall|q: int|
            #[trigger] visited.contains(q) ==> left <= q <= right,
        forall|q: int|
            #[trigger] visited.contains(q) ==> visited.contains(fstep(a, b, q))
                || finals.contains(fstep(a, b, q)),
        forall|q: int|
            left <= q <= right && !(#[trigger] in_swath(a, left, right, b[q]))
                ==> visited.contains(q),
        forall|t: int| #[trigger] finals.contains(t) ==> !(left <= t <= right),
        chain.len() >= 1,
        forall|m: int| 0 <= m < chain.len() ==> left <= #[trigger] chain[m] <= right,
        !(left <= fstep(a, b, chain[0]) <= right),
        forall|m: int| 0 <= m < chain.len() - 1 ==> fstep(a, b, chain[m + 1]) == #[trigger] chain[m],
        chain.no_duplicates(),
    ensures
        visited.contains(chain.last()),
    decreases (right + 1 - left) - chain.len(),
{
    let s = chain.last();
    if !in_swath(a, left, right, b[s]) {
        assert(visited.contains(s));
    } else {
        let k = choose|k: int| left <= k <= right && a[k] == b[s];
        lemma_chase_step(a, b, k);
        assert(fstep(a, b, k) == s);
        let chain2 = chain.push(k);
        assert forall|m: int| 0 <= m < chain.len() implies chain[m] != k by {
            if chain[m] == k {
                assert(fstep(a, b, chain[m]) == s);
                if m == 0 {
                    assert(!(left <= fstep(a, b, chain[0]) <= right));
                } else {
                    assert(fstep(a, b, chain[(m - 1) + 1]) == chain[m - 1]);
                    assert(chain[m - 1] == s);
                    assert(chain[chain.len() - 1] == s);
                    assert(m - 1 != chain.len() - 1);
                }
            }
        }
        assert(chain2.no_duplicates());
        assert(chain2.last() == k);
        assert(chain2[0] == chain[0]);
        assert forall|m: int| 0 <= m < chain2.len() - 1 implies fstep(a, b, chain2[m + 1])
            == #[trigger] chain2[m] by {
            if m < chain.len() - 1 {
                assert(chain2[m + 1] == chain[m + 1]);
            } else {
                assert(chain2[m + 1] == k);
                assert(chain2[m] == s);
            }
        }
        chain2.unique_seq_to_set();
        assert(chain2.to_set().subset_of(vstd::set_lib::set_int_range(left, right + 1))) by {
            assert forall|v: int| chain2.to_set().contains(v) implies vstd::set_lib::set_int_range(
                left,
                right + 1,
            ).contains(v) by {
                assert(chain2.contains(v));
                let m = choose|m: int| 0 <= m < chain2.len() && chain2[m] == v;
                assert(left <= chain2[m] <= right);
            }
        }
        vstd::set_lib::lemma_int_range(left, right + 1);
        vstd::set_lib::lemma_len_subset(
            chain2.to_set(),
            vstd::set_lib::set_int_range(left, right + 1),
        );
        assert(chain2.len() <= right + 1 - left);
        lemma_backchain(a, b, left, right, visited, finals, chain2);
        assert(visited.contains(k));
        assert(visited.contains(fstep(a, b, k)) || finals.contains(fstep(a, b, k)));
        assert(visited.contains(s));
    }
}

/// Partially-mapped crossover with a fixed swath: copies parent `b`,
/// overwrites the swath `swath_left..=swath_right` with parent `a`'s genes,
/// and relocates each displaced gene of `b` along the a-to-b position
/// correspondence to a slot outside the swath. The offspring holds exactly
/// the parents' shared gene set, each gene once.
#[verifier::loop_isolation(false)]
#[verifier::rlimit(100)]
pub fn pmx_crossover_with_swath(
    parent_a: &Vec<NodeIndex>,
    parent_b: &Vec<NodeIndex>,
    swath_left: usize,
    swath_right: usize,
) -> (offspring: Vec<NodeIndex>)
    requires
        pmx_setup(parent_a@, parent_b@, swath_left as int, swath_right as int),
    ensures
        offspring@.len() == parent_a@.len(),
        offspring@.to_multiset() == parent_a@.to_multiset(),
        pmx_offspring_shape(
            parent_a@,
            parent_b@,
            swath_left as int,
            swath_right as int,
            offspring@,
        ),
{
    let ghost a = parent_a@;
    let ghost b = parent_b@;
    let ghost left = swath_left as int;
    let ghost right = swath_right as int;
    let n = parent_a.len();
    let mut offspring = clone_chromosome(parent_b);
    let mut i: usize = swath_left;
    while i <= swath_right
        invariant
            swath_left <= i <= swath_right + 1,
            swath_right < n == a.len(),
            offspring@.len() == n,
            forall|k: int| left <= k < i ==> #[trigger] offspring@[k] == a[k],
            forall|k: int| 0 <= k < n && !(left <= k < i) ==> #[trigger] offspring@[k] == b[k],
        decreases swath_right + 1 - i,
    {
        offspring.set(i, parent_a[i]);
        i = i + 1;
    }
    let ghost mut visited: Set<int> = Set::empty();
    let ghost mut finals: Set<int> = Set::empty();
    let ghost mut placed: Map<int, int> = Map::empty();
    proof {
        assert(placed.dom() =~= finals);
        assert(pmx_inv(a, b, left, right, left, offspring@, visited, finals, placed));
        assert(pmx_starts_done(a, b, left, right, left, visited, finals, placed));
    }
    let mut p: usize = swath_left;
    while p <= swath_right
        invariant
            swath_left <= p <= swath_right + 1,
            swath_right < n == a.len(),
            pmx_inv(a, b, left, right, p as int, offspring@, visited, finals, placed),
            pmx_starts_done(a, b, left, right, p as int, visited, finals, placed),
            forall|q: int|
                #[trigger] visited.contains(q) ==> visited.contains(fstep(a, b, q))
                    || finals.contains(fstep(a, b, q)),
        decreases swath_right + 1 - p,
    {
        let allele = parent_b[p];
        if !contains_in_range(parent_a, swath_left, swath_right, allele) {
            let mut pos: usize = p;
            proof {
                lemma_chase_step(a, b, pos as int);
            }
            let mut next: usize = find_position(parent_b, parent_a[pos]);
            proof {
                assert(next as int == fstep(a, b, pos as int));
            }
            while swath_left <= next && next <= swath_right
                invariant
                    swath_left <= p <= swath_right,
                    swath_right < n == a.len(),
                    pmx_inv(a, b, left, right, p + 1, offspring@, visited, finals, placed),
                    pmx_starts_done(a, b, left, right, p as int, visited, finals, placed),
                    forall|t: int| #[trigger] finals.contains(t) ==> placed[t] < p as int,
                    pos == p || visited.contains(p as int),
                    forall|q: int|
                        #[trigger] visited.contains(q) ==> visited.contains(fstep(a, b, q))
                            || finals.contains(fstep(a, b, q)) || fstep(a, b, q) == pos as int,
                    swath_left <= pos <= swath_right,
                    !visited.contains(pos as int),
                    (pos == p && !in_swath(a, left, right, b[pos as int])) || (in_swath(
                        a,
                        left,
                        right,
                        b[pos as int],
                    ) && exists|q2: int| visited.contains(q2) && fstep(a, b, q2) == pos as int),
                    next as int == fstep(a, b, pos as int),
                    next < n,
                    allele == b[p as int],
                    !in_swath(a, left, right, allele),
                decreases (right + 1 - left) - visited.len(),
            {
                proof {
                    lemma_chase_step(a, b, pos as int);
                    // the next slot has not been walked before
                    assert(b[next as int] == a[pos as int]);
                    assert(in_swath(a, left, right, b[next as int]));
                    if visited.contains(next as int) {
                        let q2 = choose|q2: int|
                            visited.contains(q2) && fstep(a, b, q2) == next as int;
                        lemma_chase_injective(a, b, q2, pos as int);
                        assert(false);
                    }
                    if next as int == pos as int {
                        if pos == p {
                            assert(!in_swath(a, left, right, b[pos as int]));
                            assert(false);
                        } else {
                            let q2 = choose|q2: int|
                                visited.contains(q2) && fstep(a, b, q2) == pos as int;
                            lemma_chase_injective(a, b, q2, pos as int);
                            assert(false);
                        }
                    }
                    let visited0 = visited;
                    visited = visited0.insert(pos as int);
                    assert forall|q: int| #[trigger] visited.contains(q) implies ((in_swath(
                        a,
                        left,
                        right,
                        b[q],
                    ) && exists|q2: int| visited.contains(q2) && fstep(a, b, q2) == q) || (
                    !in_swath(a, left, right, b[q]) && left <= q < p + 1)) by {
                        if q == pos as int {
                            if pos != p {
                                let q2 = choose|q2: int|
                                    visited0.contains(q2) && fstep(a, b, q2) == pos as int;
                                assert(visited.contains(q2));
                            }
                        } else {
                            assert(visited0.contains(q));
                            if in_swath(a, left, right, b[q]) {
                                let q2 = choose|q2: int|
                                    visited0.contains(q2) && fstep(a, b, q2) == q;
                                assert(visited.contains(q2));
                            }
                        }
                    }
                    assert forall|t: int| #[trigger] finals.contains(t) implies exists|q: int|
                        visited.contains(q) && fstep(a, b, q) == t by {
                        let q = choose|q: int| visited0.contains(q) && fstep(a, b, q) == t;
                        assert(visited.contains(q));
                    }
                    assert forall|q: int| #[trigger] visited.contains(q) implies visited.contains(
                        fstep(a, b, q),
                    ) || finals.contains(fstep(a, b, q)) || fstep(a, b, q) == next as int by {
                        if q != pos as int {
                            assert(visited0.contains(q));
                        }
                    }
                    assert(visited.contains(pos as int) && fstep(a, b, pos as int) == next as int);
                    // the visited set stays inside the swath
                    vstd::set_lib::lemma_int_range(left, right + 1);
                    assert(visited.subset_of(vstd::set_lib::set_int_range(left, right + 1)));
                    vstd::set_lib::lemma_len_subset(
                        visited,
                        vstd::set_lib::set_int_range(left, right + 1),
                    );
                }
                pos = next;
                proof {
                    lemma_chase_step(a, b, pos as int);
                }
                next = find_position(parent_b, parent_a[pos]);
                proof {
                    assert(next as int == fstep(a, b, pos as int));
                }
            }
            offspring.set(next, allele);
            proof {
                lemma_chase_step(a, b, pos as int);
                assert(b[next as int] == a[pos as int]);
                assert(in_swath(a, left, right, b[next as int]));
                // the landing slot is fresh: no earlier chase ended there
                if finals.contains(next as int) {
                    let q2 = choose|q2: int| visited.contains(q2) && fstep(a, b, q2) == next as int;
                    lemma_chase_injective(a, b, q2, pos as int);
                    assert(false);
                }
                let visited0 = visited;
                let finals0 = finals;
                let placed0 = placed;
                visited = visited0.insert(pos as int);
                finals = finals0.insert(next as int);
                placed = placed0.insert(next as int, p as int);
                let off2 = offspring@;
                assert(placed.dom() =~= finals);
                assert(visited.contains(p as int));
                assert(off2[next as int] == allele);
                assert forall|q: int| #[trigger] visited.contains(q) implies ((in_swath(
                    a,
                    left,
                    right,
                    b[q],
                ) && exists|q2: int| visited.contains(q2) && fstep(a, b, q2) == q) || (!in_swath(
                    a,
                    left,
                    right,
                    b[q],
                ) && left <= q < p + 1)) by {
                    if q == pos as int {
                        if pos != p {
                            let q2 = choose|q2: int|
                                visited0.contains(q2) && fstep(a, b, q2) == pos as int;
                            assert(visited.contains(q2));
                        }
                    } else {
                        assert(visited0.contains(q));
                        if in_swath(a, left, right, b[q]) {
                            let q2 = choose|q2: int|
                                visited0.contains(q2) && fstep(a, b, q2) == q;
                            assert(visited.contains(q2));
                        }
                    }
                }
                assert forall|t: int| #[trigger] finals.contains(t) implies left <= placed[t]
                    <= right && placed[t] < p + 1 && !in_swath(a, left, right, b[placed[t]])
                    && off2[t] == b[placed[t]] && in_swath(a, left, right, b[t]) by {
                    if t == next as int {
                        assert(placed[t] == p as int);
                        assert(off2[t] == b[p as int]);
                    } else {
                        assert(finals0.contains(t));
                        assert(placed[t] == placed0[t]);
                        assert(off2[t] == b[placed0[t]]);
                    }
                }
                assert forall|t1: int, t2: int|
                    finals.contains(t1) && finals.contains(t2) && t1 != t2 implies placed[t1]
                        != placed[t2] by {
                    if t1 == next as int {
                        assert(finals0.contains(t2));
                        assert(placed0[t2] < p as int);
                    } else if t2 == next as int {
                        assert(finals0.contains(t1));
                        assert(placed0[t1] < p as int);
                    } else {
                        assert(finals0.contains(t1) && finals0.contains(t2));
                    }
                }
                assert forall|t: int| #[trigger] finals.contains(t) implies exists|q: int|
                    visited.contains(q) && fstep(a, b, q) == t by {
                    if t == next as int {
                        assert(visited.contains(pos as int) && fstep(a, b, pos as int) == t);
                    } else {
                        let q = choose|q: int| visited0.contains(q) && fstep(a, b, q) == t;
                        assert(visited.contains(q));
                    }
                }
                assert forall|q: int| #[trigger] visited.contains(q) implies visited.contains(
                    fstep(a, b, q),
                ) || finals.contains(fstep(a, b, q)) by {
                    if q == pos as int {
                        assert(finals.contains(next as int));
                    } else {
                        assert(visited0.contains(q));
                    }
                }
                assert forall|q: int|
                    left <= q < p + 1 && !(#[trigger] in_swath(a, left, right, b[q]))
                        implies exists|t: int| finals.contains(t) && placed[t] == q by {
                    if q == p as int {
                        assert(finals.contains(next as int) && placed[next as int] == p as int);
                    } else {
                        let t = choose|t: int| finals0.contains(t) && placed0[t] == q;
                        assert(finals.contains(t) && placed[t] == q);
                    }
                }
                assert(pmx_inv(a, b, left, right, p + 1, offspring@, visited, finals, placed));
                assert(pmx_starts_done(a, b, left, right, p + 1, visited, finals, placed));
            }
        } else {
            proof {
                assert(in_swath(a, left, right, b[p as int]));
                assert(pmx_inv(a, b, left, right, p + 1, offspring@, visited, finals, placed));
                assert(pmx_starts_done(a, b, left, right, p + 1, visited, finals, placed));
            }
        }
        p = p + 1;
    }
    proof {
        let off = offspring@;
        assert(pmx_starts_done(a, b, left, right, right + 1, visited, finals, placed));
        assert forall|i1: int, j1: int|
            0 <= i1 < off.len() && 0 <= j1 < off.len() && i1 != j1 implies off[i1] != off[j1] by {
            lemma_pmx_slots_distinct(a, b, left, right, off, visited, finals, placed, i1, j1);
        }
        assert(off.no_duplicates());
        assert(off.to_set() =~= b.to_set()) by {
            assert forall|v: NodeIndex| off.to_set().contains(v) implies b.to_set().contains(
                v,
            ) by {
                assert(off.contains(v));
                let k = choose|k: int| 0 <= k < off.len() && off[k] == v;
                if left <= k <= right {
                    assert(off[k] == a[k]);
                    assert(a.contains(v));
                    assert(a.to_multiset().count(v) > 0);
                    assert(b.to_multiset().count(v) > 0);
                    assert(b.contains(v));
                } else if finals.contains(k) {
                    assert(off[k] == b[placed[k]]);
                    assert(b.contains(v));
                } else {
                    assert(off[k] == b[k]);
                    assert(b.contains(v));
                }
            }
            assert forall|v: NodeIndex| b.to_set().contains(v) implies off.to_set().contains(
                v,
            ) by {
                assert(b.contains(v));
                let t = choose|t: int| 0 <= t < b.len() && b[t] == v;
                if left <= t <= right {
                    if in_swath(a, left, right, v) {
                        let k = choose|k: int| left <= k <= right && a[k] == v;
                        assert(off[k] == a[k]);
                        assert(off.contains(v));
                    } else {
                        let fin = choose|fin: int| finals.contains(fin) && placed[fin] == t;
                        assert(off[fin] == b[t]);
                        assert(off.contains(v));
                    }
                } else {
                    if finals.contains(t) {
                        assert(in_swath(a, left, right, b[t]));
                        let k = choose|k: int| left <= k <= right && a[k] == b[t];
                        assert(off[k] == a[k]);
                        assert(off.contains(v));
                    } else {
                        assert(off[t] == b[t]);
                        assert(off.contains(v));
                    }
                }
            }
        }
        lemma_nodup_same_set_to_multiset(off, b);
        assert forall|p: int|
            0 <= p < off.len() && !(left <= p <= right) && !in_swath(a, left, right, b[p])
                implies #[trigger] off[p] == b[p] by {
            if finals.contains(p) {
                assert(in_swath(a, left, right, b[p]));
                assert(false);
            }
        }
        assert forall|p: int|
            left <= p <= right && !(#[trigger] in_swath(a, left, right, b[p]))
                implies exists|t: int|
                0 <= t < off.len() && !(left <= t <= right) && off[t] == b[p] && in_swath(
                    a,
                    left,
                    right,
                    b[t],
                ) by {
            let t = choose|t: int| finals.contains(t) && placed[t] == p;
            assert(off[t] == b[placed[t]]);
            assert(0 <= t < off.len() && !(left <= t <= right) && off[t] == b[p] && in_swath(
                a,
                left,
                right,
                b[t],
            ));
        }
        assert(pmx_offspring_shape(a, b, left, right, off));
    }
    offspring
}

/// Two distinct slots of the finished PMX offspring hold distinct genes.
proof fn lemma_pmx_slots_distinct(
    a: Seq<NodeIndex>,
    b: Seq<NodeIndex>,
    left: int,
    right: int,
    off: Seq<NodeIndex>,
    visited: Set<int>,
    finals: Set<int>,
    placed: Map<int, int>,
    i: int,
    j: int,
)
    requires
        pmx_setup(a, b, left, right),
        pmx_inv(a, b, left, right, right + 1, off, visited, finals, placed),
        pmx_starts_done(a, b, left, right, right + 1, visited, finals, placed),
        forall|q: int|
            #[trigger] visited.contains(q) ==> visited.contains(fstep(a, b, q))
                || finals.contains(fstep(a, b, q)),
        0 <= i < off.len(),
        0 <= j < off.len(),
        i != j,
    ensures
        off[i] != off[j],
{
    if off[i] == off[j] {
        let sw_i = left <= i <= right;
        let sw_j = left <= j <= right;
        if sw_i && sw_j {
            assert(a[i] != a[j]);
        } else if sw_i && !sw_j {
            lemma_pmx_swath_outside_distinct(a, b, left, right, off, visited, finals, placed, i, j);
        } else if !sw_i && sw_j {
            lemma_pmx_swath_outside_distinct(a, b, left, right, off, visited, finals, placed, j, i);
        } else {
            let fi = finals.contains(i);
            let fj = finals.contains(j);
            if fi && fj {
                assert(off[i] == b[placed[i]] && off[j] == b[placed[j]]);
                assert(placed[i] != placed[j]);
                assert(b[placed[i]] != b[placed[j]]);
            } else if fi && !fj {
                assert(off[i] == b[placed[i]] && off[j] == b[j]);
                assert(placed[i] != j);
                assert(b[placed[i]] != b[j]);
            } else if !fi && fj {
                assert(off[i] == b[i] && off[j] == b[placed[j]]);
                assert(placed[j] != i);
                assert(b[i] != b[placed[j]]);
            } else {
                assert(b[i] != b[j]);
            }
        }
        assert(false);
    }
}

/// A swath slot and an outside slot of the finished offspring never agree:
/// an agreeing untouched outside slot would have been the end of a chase.
proof fn lemma_pmx_swath_outside_distinct(
    a: Seq<NodeIndex>,
    b: Seq<NodeIndex>,
    left: int,
    right: int,
    off: Seq<NodeIndex>,
    visited: Set<int>,
    finals: Set<int>,
    placed: Map<int, int>,
    i: int,
    j: int,
)
    requires
        pmx_setup(a, b, left, right),
        pmx_inv(a, b, left, right, right + 1, off, visited, finals, placed),
        pmx_starts_done(a, b, left, right, right + 1, visited, finals, placed),
        forall|q: int|
            #[trigger] visited.contains(q) ==> visited.contains(fstep(a, b, q))
                || finals.contains(fstep(a, b, q)),
        left <= i <= right,
        0 <= j < off.len(),
        !(left <= j <= right),
    ensures
        off[i] != off[j],
{
    assert(off[i] == a[i]);
    if finals.contains(j) {
        assert(off[j] == b[placed[j]]);
        assert(!in_swath(a, left, right, b[placed[j]]));
        if off[i] == off[j] {
            assert(in_swath(a, left, right, a[i]));
            assert(false);
        }
    } else {
        assert(off[j] == b[j]);
        if off[i] == off[j] {
            // b holds a's swath gene outside the swath, so the chase from
            // the matching start must have ended exactly at `j`.
            lemma_chase_step(a, b, i);
            assert(fstep(a, b, i) == j);
            let chain = seq![i];
            assert(chain.no_duplicates());
            assert(chain.last() == i);
            lemma_backchain(a, b, left, right, visited, finals, chain);
            assert(visited.contains(i));
            assert(visited.contains(fstep(a, b, i)) || finals.contains(fstep(a, b, i)));
            assert(visited.contains(j) || finals.contains(j));
            assert(false);
        }
    }
}

/// PMX with a random swath: the left edge is drawn uniformly over the
/// slots, and the swath spans at most five slots (the fixed swath policy of
/// this solver).
pub fn pmx_crossover(
    parent_a: &Vec<NodeIndex>,
    parent_b: &Vec<NodeIndex>,
    rng: &mut rand::rngs::SmallRng,
) -> (offspring: Vec<NodeIndex>)
    requires
        parent_a@.len() == parent_b@.len(),
        parent_a@.len() > 0,
        parent_a@.no_duplicates(),
        parent_b@.no_duplicates(),
        parent_a@.to_multiset() == parent_b@.to_multiset(),
    ensures
        offspring@.len() == parent_a@.len(),
        offspring@.to_multiset() == parent_a@.to_multiset(),
        exists|left: int, right: int|
            0 <= left <= right < parent_a@.len() && right - left <= 4
                && #[trigger] pmx_offspring_shape(parent_a@, parent_b@, left, right, offspring@),
{
    let len = parent_a.len();
    let swath_left = rand_range(rng, 0, len);
    let right_bound = if len - swath_left > 5 {
        swath_left + 5
    } else {
        len
    };
    let swath_right = rand_range(rng, swath_left, right_bound);
    let offspring = pmx_crossover_with_swath(parent_a, parent_b, swath_left, swath_right);
    proof {
        assert(pmx_offspring_shape(
            parent_a@,
            parent_b@,
            swath_left as int,
            swath_right as int,
            offspring@,
        ));
    }
    offspring
}

/// Whether the genes of `candidate` equal those of a survivor already
/// taken.
#[verifier::loop_isolation(false)]
fn is_already_chosen(survivors: &Vec<Vec<NodeIndex>>, candidate: &Vec<NodeIndex>) -> (r: bool)
    ensures
        r == consumed_into(candidate@, survivors@),
{
    let mut j: usize = 0;
    while j < survivors.len()
        invariant
            j <= survivors@.len(),
            forall|q: int| 0 <= q < j ==> (#[trigger] survivors@[q])@ != candidate@,
        decreases survivors@.len() - j,
    {
        if chromosomes_equal(&survivors[j], candidate) {
            return true;
        }
        j = j + 1;
    }
    false
}

/// How many random draws one tournament round makes before it falls back
/// to a deterministic scan, so that selection always terminates.
pub const MAX_TOURNAMENT_ATTEMPTS: usize = 1024;

/// Whether the genes of `slot` were returned as one of the survivors.
pub open spec fn consumed_into(slot: Seq<NodeIndex>, survivors: Seq<Vec<NodeIndex>>) -> bool {
    exists|k: int| 0 <= k < survivors.len() && (#[trigger] survivors[k])@ == slot
}

/// The exact effect of a selection on the pool: `slots` lists the consumed
/// slots, one per survivor in order — pairwise distinct, each emptied, each
/// handing its old genes to its survivor — and every other slot is
/// untouched.
pub open spec fn consumed_slots(
    slots: Seq<int>,
    survivors: Seq<Vec<NodeIndex>>,
    pool_before: Seq<Vec<NodeIndex>>,
    pool_after: Seq<Vec<NodeIndex>>,
) -> bool {
    &&& slots.len() == survivors.len()
    &&& slots.no_duplicates()
    &&& pool_after.len() == pool_before.len()
    &&& forall|k: int| 0 <= k < slots.len() ==> 0 <= #[trigger] slots[k] < pool_before.len()
    &&& forall|k: int| 0 <= k < slots.len() ==> (pool_after[#[trigger] slots[k]])@.len() == 0
    &&& forall|k: int|
        0 <= k < slots.len() ==> (survivors[k])@ == (pool_before[#[trigger] slots[k]])@
    &&& forall|i: int|
        0 <= i < pool_before.len() && !slots.contains(i) ==> (#[trigger] pool_after[i])@ == (
        pool_before[i])@
}

/// A list of slots of `pool`, all non-empty, with pairwise distinct gene
/// sequences.
pub open spec fn distinct_nonempty_slots(idxs: Seq<int>, pool: Seq<Vec<NodeIndex>>) -> bool {
    &&& forall|k: int|
        0 <= k < idxs.len() ==> 0 <= #[trigger] idxs[k] < pool.len() && (pool[idxs[k]])@.len() > 0
    &&& forall|k1: int, k2: int|
        #![trigger idxs[k1], idxs[k2]]
        0 <= k1 < k2 < idxs.len() ==> (pool[idxs[k1]])@ != (pool[idxs[k2]])@
}

/// No duplicate-free list of slot numbers below `bound` is longer than
/// `bound`.
proof fn lemma_range_pigeonhole(s: Seq<int>, bound: int)
    requires
        s.no_duplicates(),
        0 <= bound,
        forall|k: int| 0 <= k < s.len() ==> 0 <= #[trigger] s[k] < bound,
    ensures
        s.len() <= bound,
{
    s.unique_seq_to_set();
    assert(s.to_set().subset_of(vstd::set_lib::set_int_range(0, bound))) by {
        assert forall|v: int| s.to_set().contains(v) implies vstd::set_lib::set_int_range(
            0,
            bound,
        ).contains(v) by {
            assert(s.contains(v));
            let k = choose|k: int| 0 <= k < s.len() && s[k] == v;
            assert(0 <= s[k] < bound);
        }
    }
    vstd::set_lib::lemma_int_range(0, bound);
    vstd::set_lib::lemma_len_subset(s.to_set(), vstd::set_lib::set_int_range(0, bound));
}

/// One tournament round's decision: of two drawn slots, the one whose
/// chromosome costs less survives; on a cost tie the second draw wins, as
/// the comparison is strict.
pub fn tournament_round_winner(chromosome_cost: &Vec<Cost>, x: usize, y: usize) -> (winner: usize)
    requires
        x < chromosome_cost@.len(),
        y < chromosome_cost@.len(),
    ensures
        winner == (if chromosome_cost@[x as int] < chromosome_cost@[y as int] {
            x
        } else {
            y
        }),
        chromosome_cost@[winner as int] <= chromosome_cost@[x as int],
        chromosome_cost@[winner as int] <= chromosome_cost@[y as int],
{
    if chromosome_cost[x] < chromosome_cost[y] {
        x
    } else {
        y
    }
}

/// Tournament selection with exactly-once consumption: each round draws two
/// slots at random, the cheaper chromosome survives, its slot is emptied,
/// and an emptied slot or a survivor whose genes duplicate one already
/// chosen forces a redraw. Redraws are capped: past the cap the first
/// eligible slot is taken. A round with no eligible slot at all ends the
/// selection early, but whenever the pool holds `survivor_number` non-empty
/// chromosomes with pairwise distinct genes, the full count is collected.
#[verifier::loop_isolation(false)]
#[verifier::rlimit(60)]
pub fn tournament_selection(
    survivor_number: usize,
    population: &mut Vec<Vec<NodeIndex>>,
    chromosome_cost: &Vec<Cost>,
    rng: &mut rand::rngs::SmallRng,
) -> (survivors: Vec<Vec<NodeIndex>>)
    requires
        old(population)@.len() > 0,
        chromosome_cost@.len() == old(population)@.len(),
    ensures
        survivors@.len() <= survivor_number,
        forall|k1: int, k2: int|
            0 <= k1 < k2 < survivors@.len() ==> (survivors@[k1])@ != (survivors@[k2])@,
        final(population)@.len() == old(population)@.len(),
        exists|slots: Seq<int>|
            #[trigger] consumed_slots(slots, survivors@, old(population)@, final(population)@),
        (exists|idxs: Seq<int>|
            idxs.len() == survivor_number && #[trigger] distinct_nonempty_slots(
                idxs,
                old(population)@,
            )) ==> survivors@.len() == survivor_number,
{
    let n = population.len();
    let mut survivors: Vec<Vec<NodeIndex>> = Vec::new();
    let ghost mut taken: Seq<int> = Seq::empty();
    let mut s: usize = 0;
    while s < survivor_number
        invariant
            s <= survivor_number,
            n == old(population)@.len(),
            population@.len() == n,
            n > 0,
            survivors@.len() == s,
            taken.len() == s,
            taken.no_duplicates(),
            forall|k: int| 0 <= k < taken.len() ==> 0 <= #[trigger] taken[k] < n,
            forall|k: int|
                0 <= k < taken.len() ==> (population@[#[trigger] taken[k]])@.len() == 0,
            forall|k: int|
                0 <= k < taken.len() ==> (survivors@[k])@ == (old(population)@[
                    #[trigger] taken[k]
                ])@,
            forall|i: int|
                0 <= i < n && !taken.contains(i) ==> (#[trigger] population@[i])@ == (old(
                    population,
                )@[i])@,
            forall|k1: int, k2: int|
                0 <= k1 < k2 < survivors@.len() ==> (survivors@[k1])@ != (survivors@[k2])@,
        decreases survivor_number - s,
    {
        let mut chosen: Option<usize> = None;
        let mut attempts: usize = 0;
        while attempts < MAX_TOURNAMENT_ATTEMPTS && chosen.is_none()
            invariant
                population@.len() == n,
                n > 0,
                chromosome_cost@.len() == n,
                survivors@.len() == s,
                match chosen {
                    Some(c) => c < n && (population@[c as int])@.len() > 0 && !consumed_into(
                        (population@[c as int])@,
                        survivors@,
                    ),
                    None => true,
                },
            decreases MAX_TOURNAMENT_ATTEMPTS - attempts,
        {
            let x = rand_range(rng, 0, n);
            let y = rand_range(rng, 0, n);
            if !population[x].is_empty() && !population[y].is_empty() {
                let better = tournament_round_winner(chromosome_cost, x, y);
                if !is_already_chosen(&survivors, &population[better]) {
                    chosen = Some(better);
                }
            }
            attempts = attempts + 1;
        }
        if chosen.is_none() {
            let mut idx: usize = 0;
            while idx < n && chosen.is_none()
                invariant
                    idx <= n,
                    population@.len() == n,
                    survivors@.len() == s,
                    match chosen {
                        Some(c) => c < n && (population@[c as int])@.len() > 0 && !consumed_into(
                            (population@[c as int])@,
                            survivors@,
                        ),
                        None => forall|q: int|
                            0 <= q < idx ==> (#[trigger] population@[q])@.len() == 0
                                || consumed_into((population@[q])@, survivors@),
                    },
                decreases n - idx,
            {
                if !population[idx].is_empty() {
                    if !is_already_chosen(&survivors, &population[idx]) {
                        chosen = Some(idx);
                    }
                }
                idx = idx + 1;
            }
        }
        match chosen {
            Some(c) => {
                proof {
                    // the chosen slot is untouched so far: every taken slot
                    // stands empty, and this one does not
                    assert forall|k: int| 0 <= k < taken.len() implies taken[k]
                        != c as int by {
                        assert((population@[taken[k]])@.len() == 0);
                    }
                    assert(!taken.contains(c as int));
                    assert((population@[c as int])@ == (old(population)@[c as int])@);
                }
                let ghost taken0 = taken;
                let ghost pool_head = population@;
                let winner = clone_chromosome(&population[c]);
                population.set(c, Vec::new());
                survivors.push(winner);
                proof {
                    taken = taken0.push(c as int);
                    assert(winner@ == (old(population)@[c as int])@);
                    assert((survivors@[s as int])@ == winner@);
                    assert(taken.no_duplicates()) by {
                        assert forall|m1: int, m2: int|
                            0 <= m1 < taken.len() && 0 <= m2 < taken.len() && m1 != m2
                                implies taken[m1] != taken[m2] by {
                            if m1 < taken0.len() && m2 < taken0.len() {
                                assert(taken0[m1] != taken0[m2]);
                            }
                        }
                    }
                    assert forall|k: int| 0 <= k < taken.len() implies (population@[
                        #[trigger] taken[k]
                    ])@.len() == 0 by {
                        if k < taken0.len() {
                            assert(taken[k] != c as int);
                            assert(population@[taken[k]] == pool_head[taken[k]]);
                        }
                    }
                    assert forall|i: int|
                        0 <= i < n && !taken.contains(i) implies (#[trigger] population@[i])@ == (
                        old(population)@[i])@ by {
                        if taken0.contains(i) {
                            let m = choose|m: int| 0 <= m < taken0.len() && taken0[m] == i;
                            assert(taken[m] == i);
                            assert(false);
                        }
                        if i == c as int {
                            assert(taken[taken0.len() as int] == i);
                            assert(false);
                        }
                        assert(population@[i] == pool_head[i]);
                    }
                }
                s = s + 1;
            },
            None => {
                proof {
                    // a full deterministic scan found nothing, so every slot
                    // is empty or already consumed; with `survivor_number`
                    // distinct non-empty chromosomes in the old pool that
                    // would put more distinct gene sequences among the
                    // survivors than there are survivors
                    if exists|idxs: Seq<int>|
                        idxs.len() == survivor_number && #[trigger] distinct_nonempty_slots(
                            idxs,
                            old(population)@,
                        ) {
                        let idxs = choose|idxs: Seq<int>|
                            idxs.len() == survivor_number && #[trigger] distinct_nonempty_slots(
                                idxs,
                                old(population)@,
                            );
                        assert forall|k: int| 0 <= k < idxs.len() implies consumed_into(
                            (old(population)@[idxs[k]])@,
                            survivors@,
                        ) by {
                            let i = idxs[k];
                            if (population@[i])@ == (old(population)@[i])@ {
                                assert((population@[i])@.len() > 0);
                                assert(consumed_into((population@[i])@, survivors@));
                            } else {
                                assert(taken.contains(i));
                                let m = choose|m: int| 0 <= m < taken.len() && taken[m] == i;
                                assert((survivors@[m])@ == (old(population)@[i])@);
                            }
                        }
                        let qs = Seq::new(
                            survivor_number as nat,
                            |k: int|
                                choose|q: int|
                                    0 <= q < survivors@.len() && (#[trigger] survivors@[q])@ == (
                                    old(population)@[idxs[k]])@,
                        );
                        assert forall|k: int| 0 <= k < qs.len() implies 0 <= #[trigger] qs[k]
                            < survivors@.len() && (survivors@[qs[k]])@ == (old(
                            population,
                        )@[idxs[k]])@ by {
                            assert(consumed_into((old(population)@[idxs[k]])@, survivors@));
                        }
                        assert(qs.no_duplicates()) by {
                            assert forall|k1: int, k2: int|
                                0 <= k1 < qs.len() && 0 <= k2 < qs.len() && k1 != k2 implies qs[k1]
                                != qs[k2] by {
                                if k1 < k2 {
                                    assert((old(population)@[idxs[k1]])@ != (old(
                                    population,
                                    )@[idxs[k2]])@);
                                } else {
                                    assert((old(population)@[idxs[k2]])@ != (old(
                                    population,
                                    )@[idxs[k1]])@);
                                }
                            }
                        }
                        lemma_range_pigeonhole(qs, survivors@.len() as int);
                        assert(false);
                    }
                    assert(consumed_slots(taken, survivors@, old(population)@, population@));
                }
                return survivors;
            },
        }
    }
    proof {
        assert(consumed_slots(taken, survivors@, old(population)@, population@));
    }
    survivors
}

/// Whether one of the slots `left..=right` holds `val`.
#[verifier::loop_isolation(false)]
pub fn contains_in_range(c: &Vec<NodeIndex>, left: usize, right: usize, val: NodeIndex) -> (r: bool)
    requires
        left <= right < c@.len(),
    ensures
        r == in_swath(c@, left as int, right as int, val),
{
    let n = c.len();
    let mut i: usize = left;
    while i <= right
        invariant
            left <= i <= right + 1,
            right < n == c@.len(),
            forall|k: int| left <= k < i ==> c@[k] != val,
        decreases right + 1 - i,
    {
        if c[i] == val {
            return true;
        }
        i = i + 1;
    }
    false
}

/// Runs the evolutionary search for `iteration_number` generations: each
/// generation evaluates every chromosome in parallel, records a strictly
/// better best-so-far together with its generation, carries the elites
/// over, selects tournament survivors, and breeds one offspring per
/// ordered pair of distinct survivors (crossover with the configured
/// probability, otherwise a copy of the first parent), each offspring then
/// mutated. Population policy: every generation is reconciled to exactly
/// `config.population_size` chromosomes — the elites plus the bred
/// offspring, truncated when they exceed that size and padded with fresh
/// random permutations when they fall short. The improvement history is
/// strictly decreasing in cost and strictly increasing in generation, and
/// its last entry is the cost of the returned permutation.
#[verifier::loop_isolation(false)]
#[verifier::rlimit(60)]
pub fn find_best_path(
    data: &Data,
    iteration_number: IterationNumber,
    config: &Config,
    rng: &mut rand::rngs::SmallRng,
) -> (result: BestPath)
    requires
        data.wf(),
        data.n() >= 2,
        config.wf(),
    ensures
        iteration_number == 0 ==> result.best_path@.len() == 0
            && result.best_solution_performance@.len() == 0,
        iteration_number > 0 ==> valid_chromosome(*data, result.best_path@)
            && result.best_solution_performance@.len() >= 1
            && result.best_solution_performance@[0].0 == 0 && result.best_solution_performance@.last().1
            as int == data.cost_spec(result.best_path@),
        forall|i1: int, j1: int|
            0 <= i1 < j1 < result.best_solution_performance@.len() ==> (
            #[trigger] result.best_solution_performance@[j1]).1 < (
            #[trigger] result.best_solution_performance@[i1]).1
                && result.best_solution_performance@[i1].0 < result.best_solution_performance@[j1].0,
        forall|k: int|
            0 <= k < result.best_solution_performance@.len() ==> (
            #[trigger] result.best_solution_performance@[k]).0 < iteration_number,
{
    let mut best_solution_performance: Vec<(usize, Cost)> = Vec::new();
    let mut best_cost: Cost = Cost::MAX;
    let mut best_path: Vec<NodeIndex> = Vec::new();
    let base = non_depot_indices(data);
    let mut population = initial_population(data, config.population_size, rng);
    let mut i: usize = 0;
    while i < iteration_number
        invariant
            i <= iteration_number,
            base@ == base_chromosome(*data),
            population@.len() == config.population_size,
            forall|q: int|
                0 <= q < population@.len() ==> valid_chromosome(
                    *data,
                    (#[trigger] population@[q])@,
                ),
            i == 0 ==> best_cost == Cost::MAX && best_path@.len() == 0
                && best_solution_performance@.len() == 0,
            i > 0 ==> best_cost < Cost::MAX && valid_chromosome(*data, best_path@) && best_cost
                as int == data.cost_spec(best_path@) && best_solution_performance@.len() >= 1
                && best_solution_performance@[0].0 == 0
                && best_solution_performance@.last().1 == best_cost,
            forall|k: int|
                0 <= k < best_solution_performance@.len() ==> (
                #[trigger] best_solution_performance@[k]).0 < i,
            forall|k: int|
                0 <= k < best_solution_performance@.len() ==> best_cost <= (
                #[trigger] best_solution_performance@[k]).1,
            forall|i1: int, j1: int|
                0 <= i1 < j1 < best_solution_performance@.len() ==> (
                #[trigger] best_solution_performance@[j1]).1 < (
                #[trigger] best_solution_performance@[i1]).1 && best_solution_performance@[i1].0
                    < best_solution_performance@[j1].0,
        decreases iteration_number - i,
    {
        let chromosome_cost = parallel_costs(data, &population);
        let mut best_j: usize = 0;
        let mut best_in_iteration: Cost = chromosome_cost[0];
        let mut j: usize = 1;
        while j < chromosome_cost.len()
            invariant
                chromosome_cost@.len() == population@.len(),
                population@.len() > 0,
                (best_j as int) < j <= chromosome_cost@.len(),
                best_in_iteration == chromosome_cost@[best_j as int],
                forall|q: int| 0 <= q < j ==> best_in_iteration <= #[trigger] chromosome_cost@[q],
            decreases chromosome_cost@.len() - j,
        {
            if chromosome_cost[j] <= best_in_iteration {
                best_j = j;
                best_in_iteration = chromosome_cost[j];
            }
            j = j + 1;
        }
        proof {
            lemma_valid_chromosome_facts(*data, (population@[best_j as int])@);
            data.lemma_cost_spec_bounds((population@[best_j as int])@);
            assert(best_in_iteration < Cost::MAX);
        }
        if best_in_iteration < best_cost {
            best_cost = best_in_iteration;
            best_path = clone_chromosome(&population[best_j]);
            best_solution_performance.push((i, best_in_iteration));
        }
        let new_population = select_elites(&population, &chromosome_cost, config.elite_count);
        let ghost pool = population@;
        let survivors = tournament_selection(
            config.survivor_count,
            &mut population,
            &chromosome_cost,
            rng,
        );
        proof {
            let slots = choose|slots: Seq<int>|
                #[trigger] consumed_slots(slots, survivors@, pool, population@);
            assert forall|k: int| 0 <= k < survivors@.len() implies valid_chromosome(
                *data,
                (#[trigger] survivors@[k])@,
            ) by {
                assert((survivors@[k])@ == (pool[slots[k]])@);
                assert(valid_chromosome(*data, (pool[slots[k]])@));
            }
            assert forall|t: int| 0 <= t < new_population@.len() implies valid_chromosome(
                *data,
                (#[trigger] new_population@[t])@,
            ) by {
                let i0 = choose|i0: int|
                    0 <= i0 < pool.len() && (new_population@[t])@ == (#[trigger] pool[i0])@;
                assert(valid_chromosome(*data, (pool[i0])@));
            }
        }
        population = new_population;
        let sv = survivors.len();
        let mut ii: usize = 0;
        while ii < sv
            invariant
                sv == survivors@.len(),
                forall|k: int|
                    0 <= k < survivors@.len() ==> valid_chromosome(
                        *data,
                        (#[trigger] survivors@[k])@,
                    ),
                population@.len() >= config.elite_count,
                forall|q: int|
                    0 <= q < population@.len() ==> valid_chromosome(
                        *data,
                        (#[trigger] population@[q])@,
                    ),
            decreases sv - ii,
        {
            let mut jj: usize = 0;
            while jj < sv
                invariant
                    sv == survivors@.len(),
                    ii < sv,
                    forall|k: int|
                        0 <= k < survivors@.len() ==> valid_chromosome(
                            *data,
                            (#[trigger] survivors@[k])@,
                        ),
                    population@.len() >= config.elite_count,
                    forall|q: int|
                        0 <= q < population@.len() ==> valid_chromosome(
                            *data,
                            (#[trigger] population@[q])@,
                        ),
                decreases sv - jj,
            {
                if ii != jj {
                    proof {
                        lemma_valid_chromosome_facts(*data, (survivors@[ii as int])@);
                        lemma_valid_chromosome_facts(*data, (survivors@[jj as int])@);
                    }
                    let mut offspring = if rand_ratio(
                        rng,
                        config.crossover_rate_ppt,
                        RATE_DENOMINATOR,
                    ) {
                        pmx_crossover(&survivors[ii], &survivors[jj], rng)
                    } else {
                        clone_chromosome(&survivors[ii])
                    };
                    proof {
                        assert(valid_chromosome(*data, offspring@));
                        lemma_valid_chromosome_facts(*data, offspring@);
                    }
                    mutate(&mut offspring, rng, config.mutation_rate_ppt);
                    population.push(offspring);
                }
                jj = jj + 1;
            }
            ii = ii + 1;
        }
        // reconcile the next generation to the configured size
        if population.len() > config.population_size {
            let ghost before_truncate = population@;
            population.truncate(config.population_size);
            proof {
                assert forall|q: int| 0 <= q < population@.len() implies valid_chromosome(
                    *data,
                    (#[trigger] population@[q])@,
                ) by {
                    assert(population@[q] == before_truncate[q]);
                }
            }
        }
        while population.len() < config.population_size
            invariant
                base@ == base_chromosome(*data),
                population@.len() <= config.population_size,
                forall|q: int|
                    0 <= q < population@.len() ==> valid_chromosome(
                        *data,
                        (#[trigger] population@[q])@,
                    ),
            decreases config.population_size - population@.len(),
        {
            let mut fresh = clone_chromosome(&base);
            shuffle(&mut fresh, rng);
            population.push(fresh);
        }
        i = i + 1;
    }
    BestPath { best_path, best_solution_performance }
}

} // verus!
