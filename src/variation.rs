//! Variation: averaging crossover of two elites plus per-component noise,
//! and the population that elites and offspring make together.
use vstd::prelude::*;

use crate::archive::{copy_vector, uniform};
use crate::metric::views;
use crate::selection::{elite_indices, select_elites};

verus! {

/// The two parents and the noise of one offspring: `first` and `second`
/// index the elites, and `noise` holds one value per component.
#[derive(Debug)]
pub struct Draw {
    pub first: usize,
    pub second: usize,
    pub noise: Vec<i32>,
}

/// The mean of two integers, rounded down.
pub open spec fn midpoint(a: int, b: int) -> int {
    (a + b) / 2
}

/// `x` held within the range of `i32`.
pub open spec fn saturate(x: int) -> i32 {
    if x < i32::MIN {
        i32::MIN
    } else if x > i32::MAX {
        i32::MAX
    } else {
        x as i32
    }
}

/// The offspring of two parents: per component, their mean plus the noise.
pub open spec fn child_of(first: Seq<i32>, second: Seq<i32>, noise: Seq<i32>) -> Seq<i32> {
    Seq::new(first.len(), |i: int| saturate(midpoint(first[i] as int, second[i] as int) + noise[i]))
}

/// The draw names two of `elite_count` elites and has `n` noise values.
pub open spec fn draw_fits(d: Draw, elite_count: nat, n: nat) -> bool {
    d.first < elite_count && d.second < elite_count && d.noise@.len() == n
}

/// The individuals that `indices` names, in that order.
pub open spec fn pick(population: Seq<Seq<i32>>, indices: Seq<usize>) -> Seq<Seq<i32>> {
    indices.map_values(|c: usize| population[c as int])
}

/// One offspring per draw, bred from the elites.
pub open spec fn offspring_of(elites: Seq<Seq<i32>>, draws: Seq<Draw>) -> Seq<Seq<i32>> {
    Seq::new(
        draws.len(),
        |j: int| child_of(elites[draws[j].first as int], elites[draws[j].second as int], draws[j].noise@),
    )
}

/// The next population: the `remain` best-scoring individuals, best first,
/// followed by the offspring of the draws.
pub open spec fn successor(population: Seq<Seq<i32>>, scores: Seq<u64>, remain: nat, draws: Seq<Draw>) -> Seq<Seq<i32>> {
    let elites = pick(population, elite_indices(scores, remain));
    elites + offspring_of(elites, draws)
}

/// Crossing a parent with itself, without noise, gives the parent back.
pub proof fn lemma_self_crossover_is_identity(parent: Seq<i32>, noise: Seq<i32>)
    requires
        noise.len() == parent.len(),
        forall|i: int| 0 <= i < noise.len() ==> #[trigger] noise[i] == 0,
    ensures
        child_of(parent, parent, noise) == parent,
{
    assert(child_of(parent, parent, noise) =~= parent);
}

/// The mean of two components, rounded down.
fn mean_down(a: i32, b: i32) -> (r: i64)
    ensures
        r == midpoint(a as int, b as int),
        i32::MIN <= r <= i32::MAX,
{
    let s: i64 = a as i64 + b as i64;
    if s >= 0 {
        ((s as u64) / 2) as i64
    } else {
        let t: u64 = (0 - s) as u64;
        0 - (((t + 1) / 2) as i64)
    }
}

/// The offspring of `first` and `second` with the given noise: per
/// component, the mean of the parents rounded down, plus the noise, held
/// within the range of `i32`.
pub fn crossover(first: &Vec<i32>, second: &Vec<i32>, noise: &Vec<i32>) -> (child: Vec<i32>)
    requires
        second@.len() == first@.len(),
        noise@.len() == first@.len(),
    ensures
        child@ == child_of(first@, second@, noise@),
{
    let mut child: Vec<i32> = Vec::new();
    let mut i: usize = 0;
    while i < first.len()
        invariant
            i <= first@.len(),
            second@.len() == first@.len(),
            noise@.len() == first@.len(),
            child@ == child_of(first@, second@, noise@).take(i as int),
        decreases first@.len() - i,
    {
        let x: i64 = mean_down(first[i], second[i]) + noise[i] as i64;
        let v: i32 = if x < i32::MIN as i64 {
            i32::MIN
        } else if x > i32::MAX as i64 {
            i32::MAX
        } else {
            x as i32
        };
        child.push(v);
        i = i + 1;
        assert(child@ =~= child_of(first@, second@, noise@).take(i as int));
    }
    assert(child@ =~= child_of(first@, second@, noise@));
    child
}

/// The scores of the individuals, in population order.
pub open spec fn scores_of(evaluations: Seq<crate::archive::Evaluation>) -> Seq<u64> {
    evaluations.map_values(|e: crate::archive::Evaluation| e.score)
}

/// The next population: the `remain` best-scoring individuals (best first,
/// ties to the earlier position), then one offspring of those elites per draw.
pub fn next_population(population: &Vec<Vec<i32>>, scores: &Vec<u64>, remain: usize, draws: &Vec<Draw>) -> (r: Vec<Vec<i32>>)
    requires
        scores@.len() == population@.len(),
        remain <= population@.len(),
        population@.len() > 0,
        uniform(views(population@), population@[0]@.len()),
        forall|j: int| 0 <= j < draws@.len() ==> draw_fits(#[trigger] draws@[j], remain as nat, population@[0]@.len()),
    ensures
        views(r@) == successor(views(population@), scores@, remain as nat, draws@),
        r@.len() == remain + draws@.len(),
        uniform(views(r@), population@[0]@.len()),
{
    let ghost pop = views(population@);
    let ghost n = population@[0]@.len();
    let chosen = select_elites(scores, remain);
    let ghost elites = pick(pop, chosen@);
    let mut r: Vec<Vec<i32>> = Vec::new();
    let mut c: usize = 0;
    while c < remain
        invariant
            c <= remain,
            chosen@.len() == remain,
            pop == views(population@),
            elites == pick(pop, chosen@),
            forall|p: int| 0 <= p < chosen@.len() ==> #[trigger] chosen@[p] < pop.len(),
            views(r@) == elites.take(c as int),
        decreases remain - c,
    {
        let e = copy_vector(&population[chosen[c]]);
        let ghost prev = r@;
        r.push(e);
        assert(views(r@) =~= views(prev).push(e@));
        assert(e@ == elites[c as int]);
        assert(elites.take(c as int + 1) =~= elites.take(c as int).push(elites[c as int]));
        c = c + 1;
    }
    assert(elites.take(remain as int) =~= elites);
    assert forall|p: int| 0 <= p < elites.len() implies #[trigger] elites[p].len() == n by {
        assert(elites[p] == pop[chosen@[p] as int]);
    }
    assert forall|p: int| 0 <= p < r@.len() implies #[trigger] r@[p]@ == elites[p] by {
        assert(views(r@)[p] == r@[p]@);
    }
    let mut j: usize = 0;
    while j < draws.len()
        invariant
            j <= draws@.len(),
            r@.len() == remain + j,
            elites.len() == remain,
            forall|p: int| 0 <= p < elites.len() ==> #[trigger] elites[p].len() == n,
            forall|p: int| 0 <= p < remain ==> #[trigger] r@[p]@ == elites[p],
            forall|p: int| 0 <= p < r@.len() ==> #[trigger] r@[p]@.len() == n,
            forall|t: int| 0 <= t < draws@.len() ==> draw_fits(#[trigger] draws@[t], remain as nat, n),
            views(r@) == elites + offspring_of(elites, draws@).take(j as int),
        decreases draws@.len() - j,
    {
        let d = &draws[j];
        assert(draw_fits(draws@[j as int], remain as nat, n));
        assert(r@[d.first as int]@ == elites[d.first as int]);
        assert(r@[d.second as int]@ == elites[d.second as int]);
        let child = crossover(&r[d.first], &r[d.second], &d.noise);
        let ghost prev = r@;
        r.push(child);
        assert(views(r@) =~= views(prev).push(child@));
        assert(child@ == offspring_of(elites, draws@)[j as int]);
        assert(offspring_of(elites, draws@).take(j as int + 1) =~= offspring_of(elites, draws@).take(j as int).push(child@));
        assert(elites + offspring_of(elites, draws@).take(j as int + 1) =~= (elites + offspring_of(elites, draws@).take(j as int)).push(child@));
        j = j + 1;
    }
    assert(offspring_of(elites, draws@).take(draws@.len() as int) =~= offspring_of(elites, draws@));
    assert forall|p: int| 0 <= p < views(r@).len() implies #[trigger] views(r@)[p].len() == n by {
        assert(views(r@)[p] == r@[p]@);
    }
    r
}

} // verus!
