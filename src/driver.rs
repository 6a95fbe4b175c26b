//! The generation loop: evaluate, select, vary, replace.
use vstd::prelude::*;

use crate::archive::{archive_after, lemma_archive_grows, evaluate_generation, score_in, uniform, Evaluation};
use crate::metric::{views, within_dimension_limit, MAX_DIMENSION};
use crate::random::{draw_offspring, noise_within};
use crate::variation::{draw_fits, next_population, scores_of, successor, Draw};
use crate::NoveltyError;

verus! {

/// The parameters of a run.
#[derive(Debug, Clone, Copy, PartialEq, Eq, Structural)]
pub struct Params {
    /// How many nearest neighbours a novelty score averages over.
    pub k: usize,
    /// A score must exceed this to enter the archive.
    pub threshold: u64,
    /// How many elites survive into each next generation.
    pub remain_agents: usize,
    /// How many generations the run lasts.
    pub generation_budget: usize,
    /// The width of the range that each noise value is drawn from.
    pub noise_amplitude: u32,
}

/// What one generation recorded: the population it evaluated, and the
/// evaluation of each of its individuals.
#[derive(Debug)]
pub struct GenerationRecord {
    pub population: Vec<Vec<i32>>,
    pub evaluations: Vec<Evaluation>,
}

/// What a run hands back: the last population, the archive, and one record
/// per generation.
#[derive(Debug)]
pub struct RunOutcome {
    pub population: Vec<Vec<i32>>,
    pub archive: Vec<Vec<i32>>,
    pub history: Vec<GenerationRecord>,
}

/// The parameters describe a usable run over a population of `size`.
pub open spec fn params_valid(p: Params, size: nat) -> bool {
    p.k > 0 && p.generation_budget > 0 && 0 < p.remain_agents && p.remain_agents < size
}

/// The evaluations are those of an evaluation pass over `population`
/// starting from `archive`.
pub open spec fn evaluations_match(
    evaluations: Seq<Evaluation>,
    population: Seq<Seq<i32>>,
    archive: Seq<Seq<i32>>,
    k: nat,
    threshold: int,
) -> bool {
    &&& evaluations.len() == population.len()
    &&& forall|i: int|
        0 <= i < evaluations.len() ==> {
            &&& #[trigger] evaluations[i].score == score_in(
                population,
                archive_after(population, archive, k, threshold, i as nat),
                k,
                i,
            )
            &&& evaluations[i].admitted == (evaluations[i].score > threshold)
        }
}

/// `next` is a successor of `population` for some draws that fit the
/// parameters.
pub open spec fn bred_from(next: Seq<Seq<i32>>, population: Seq<Seq<i32>>, scores: Seq<u64>, params: Params, n: nat) -> bool {
    exists|draws: Seq<Draw>|
        {
            &&& draws.len() == population.len() - params.remain_agents
            &&& forall|j: int|
                0 <= j < draws.len() ==> draw_fits(#[trigger] draws[j], params.remain_agents as nat, n)
                    && noise_within(draws[j].noise@, params.noise_amplitude as nat)
            &&& next == successor(population, scores, params.remain_agents as nat, draws)
        }
}

/// The scores of the evaluations, in order.
fn scores_vec(evaluations: &Vec<Evaluation>) -> (r: Vec<u64>)
    ensures
        r@ == scores_of(evaluations@),
{
    let mut r: Vec<u64> = Vec::new();
    let mut i: usize = 0;
    while i < evaluations.len()
        invariant
            i <= evaluations@.len(),
            r@ == scores_of(evaluations@).take(i as int),
        decreases evaluations@.len() - i,
    {
        r.push(evaluations[i].score);
        i = i + 1;
        assert(r@ =~= scores_of(evaluations@).take(i as int));
    }
    assert(r@ =~= scores_of(evaluations@));
    r
}

/// One generation: evaluates and archives every individual in order, keeps
/// the `remain_agents` best as elites and fills the rest of the population
/// with offspring of randomly drawn elite pairs.
pub fn generation(population: &Vec<Vec<i32>>, archive: &mut Vec<Vec<i32>>, params: &Params) -> (r: (Vec<Vec<i32>>, Vec<Evaluation>))
    requires
        params.k > 0,
        0 < params.remain_agents < population@.len(),
        population@[0]@.len() <= MAX_DIMENSION,
        uniform(views(population@), population@[0]@.len()),
        uniform(views(old(archive)@), population@[0]@.len()),
    ensures
        evaluations_match(r.1@, views(population@), views(old(archive)@), params.k as nat, params.threshold as int),
        views(final(archive)@) == archive_after(
            views(population@),
            views(old(archive)@),
            params.k as nat,
            params.threshold as int,
            population@.len(),
        ),
        uniform(views(final(archive)@), population@[0]@.len()),
        r.0@.len() == population@.len(),
        uniform(views(r.0@), population@[0]@.len()),
        bred_from(views(r.0@), views(population@), scores_of(r.1@), *params, population@[0]@.len() as nat),
{
    let ghost n = population@[0]@.len();
    let evaluations = evaluate_generation(population, archive, params.k, params.threshold);
    let scores = scores_vec(&evaluations);
    let remain = params.remain_agents;
    let dim = population[0].len();
    let mut draws: Vec<Draw> = Vec::new();
    let mut j: usize = 0;
    while j < population.len() - remain
        invariant
            0 < remain < population@.len(),
            remain == params.remain_agents,
            dim == n,
            j <= population@.len() - remain,
            draws@.len() == j,
            forall|t: int|
                0 <= t < j ==> draw_fits(#[trigger] draws@[t], remain as nat, n)
                    && noise_within(draws@[t].noise@, params.noise_amplitude as nat),
        decreases population@.len() - remain - j,
    {
        let d = draw_offspring(remain, dim, params.noise_amplitude);
        draws.push(d);
        j = j + 1;
    }
    let next = next_population(population, &scores, remain, &draws);
    (next, evaluations)
}

/// The populations that the records hold, in order.
pub open spec fn recorded_populations(history: Seq<GenerationRecord>) -> Seq<Seq<Seq<i32>>> {
    history.map_values(|h: GenerationRecord| views(h.population@))
}

/// The archive of a run, started empty, once generations `0..g` have each
/// evaluated `populations[g]`.
pub open spec fn archive_through(populations: Seq<Seq<Seq<i32>>>, k: nat, threshold: int, g: nat) -> Seq<Seq<i32>>
    decreases g,
{
    if g == 0 {
        Seq::empty()
    } else {
        let m = (g - 1) as nat;
        archive_after(populations[m as int], archive_through(populations, k, threshold, m), k, threshold, populations[m as int].len())
    }
}

/// Over a run, each generation keeps the archive it started with as a
/// prefix: the archive never shrinks.
pub proof fn lemma_run_archive_grows(populations: Seq<Seq<Seq<i32>>>, k: nat, threshold: int, g: nat)
    requires
        g < populations.len(),
    ensures
        ({
            let before = archive_through(populations, k, threshold, g);
            let after = archive_through(populations, k, threshold, g + 1);
            before.len() <= after.len() && after.take(before.len() as int) == before
        }),
{
    let before = archive_through(populations, k, threshold, g);
    lemma_archive_grows(populations[g as int], before, k, threshold, populations[g as int].len());
}

proof fn lemma_archive_through_prefix(a: Seq<Seq<Seq<i32>>>, b: Seq<Seq<Seq<i32>>>, k: nat, threshold: int, g: nat)
    requires
        g <= a.len(),
        g <= b.len(),
        forall|i: int| 0 <= i < g ==> a[i] == b[i],
    ensures
        archive_through(a, k, threshold, g) == archive_through(b, k, threshold, g),
    decreases g,
{
    if g > 0 {
        lemma_archive_through_prefix(a, b, k, threshold, (g - 1) as nat);
    }
}

/// Whether every vector of the population has as many components as the first.
fn same_dimensions(population: &Vec<Vec<i32>>) -> (r: bool)
    requires
        population@.len() > 0,
    ensures
        r == uniform(views(population@), population@[0]@.len()),
{
    let n = population[0].len();
    let mut i: usize = 0;
    while i < population.len()
        invariant
            i <= population@.len(),
            n == population@[0]@.len(),
            forall|j: int| 0 <= j < i ==> #[trigger] views(population@)[j].len() == n,
        decreases population@.len() - i,
    {
        if population[i].len() != n {
            assert(views(population@)[i as int].len() != n);
            return false;
        }
        assert(views(population@)[i as int] == population@[i as int]@);
        i = i + 1;
    }
    true
}

/// Runs novelty search from `initial` with an empty archive for
/// `generation_budget` generations.
///
/// Refused with `InvalidParameters` when the parameters do not describe a
/// usable run, and otherwise with `DimensionMismatch` when the initial
/// vectors differ in length.
pub fn run(initial: &Vec<Vec<i32>>, params: &Params) -> (r: Result<RunOutcome, NoveltyError>)
    requires
        within_dimension_limit(views(initial@)),
    ensures
        match r {
            Ok(out) => {
                let pops = recorded_populations(out.history@);
                let n = initial@[0]@.len();
                let k = params.k as nat;
                let t = params.threshold as int;
                &&& params_valid(*params, initial@.len())
                &&& uniform(views(initial@), n)
                &&& out.history@.len() == params.generation_budget
                &&& pops[0] == views(initial@)
                &&& forall|g: int|
                    0 <= g < pops.len() ==> evaluations_match(
                        #[trigger] out.history@[g].evaluations@,
                        pops[g],
                        archive_through(pops, k, t, g as nat),
                        k,
                        t,
                    )
                &&& forall|g: int|
                    0 <= g < pops.len() - 1 ==> bred_from(
                        #[trigger] pops[g + 1],
                        pops[g],
                        scores_of(out.history@[g].evaluations@),
                        *params,
                        n,
                    )
                &&& bred_from(
                    views(out.population@),
                    pops.last(),
                    scores_of(out.history@.last().evaluations@),
                    *params,
                    n,
                )
                &&& views(out.archive@) == archive_through(pops, k, t, pops.len())
                &&& out.population@.len() == initial@.len()
                &&& uniform(views(out.population@), n)
                &&& uniform(views(out.archive@), n)
            },
            Err(e) => if !params_valid(*params, initial@.len()) {
                e == NoveltyError::InvalidParameters
            } else {
                !uniform(views(initial@), initial@[0]@.len()) && e == NoveltyError::DimensionMismatch
            },
        },
{
    if params.k == 0 || params.generation_budget == 0 || params.remain_agents == 0 || params.remain_agents >= initial.len() {
        return Err(NoveltyError::InvalidParameters);
    }
    if !same_dimensions(initial) {
        return Err(NoveltyError::DimensionMismatch);
    }
    let ghost n = initial@[0]@.len();
    let ghost k = params.k as nat;
    let ghost t = params.threshold as int;
    assert(views(initial@)[0] == initial@[0]@);
    let mut population: Vec<Vec<i32>> = Vec::new();
    let mut c: usize = 0;
    while c < initial.len()
        invariant
            c <= initial@.len(),
            views(population@) == views(initial@).take(c as int),
        decreases initial@.len() - c,
    {
        let v = crate::archive::copy_vector(&initial[c]);
        let ghost prev = population@;
        population.push(v);
        assert(views(population@) =~= views(prev).push(v@));
        c = c + 1;
        assert(views(initial@).take(c as int) =~= views(initial@).take(c as int - 1).push(initial@[c as int - 1]@));
    }
    assert(views(initial@).take(c as int) =~= views(initial@));
    let mut archive: Vec<Vec<i32>> = Vec::new();
    let mut history: Vec<GenerationRecord> = Vec::new();
    let mut g: usize = 0;
    assert(views(archive@) =~= Seq::<Seq<i32>>::empty());
    while g < params.generation_budget
        invariant
            params_valid(*params, initial@.len()),
            n == initial@[0]@.len(),
            n <= MAX_DIMENSION,
            k == params.k,
            t == params.threshold,
            g <= params.generation_budget,
            history@.len() == g,
            population@.len() == initial@.len(),
            uniform(views(population@), n),
            uniform(views(archive@), n),
            g == 0 ==> views(population@) == views(initial@),
            g > 0 ==> recorded_populations(history@)[0] == views(initial@),
            g > 0 ==> bred_from(
                views(population@),
                recorded_populations(history@).last(),
                scores_of(history@.last().evaluations@),
                *params,
                n,
            ),
            views(archive@) == archive_through(recorded_populations(history@), k, t, g as nat),
            forall|h: int|
                0 <= h < g ==> evaluations_match(
                    #[trigger] history@[h].evaluations@,
                    recorded_populations(history@)[h],
                    archive_through(recorded_populations(history@), k, t, h as nat),
                    k,
                    t,
                ),
            forall|h: int|
                0 <= h < g - 1 ==> bred_from(
                    #[trigger] recorded_populations(history@)[h + 1],
                    recorded_populations(history@)[h],
                    scores_of(history@[h].evaluations@),
                    *params,
                    n,
                ),
        decreases params.generation_budget - g,
    {
        let ghost pops = recorded_populations(history@);
        let ghost arch = views(archive@);
        assert(population@[0]@ == views(population@)[0]);
        let (next, evaluations) = generation(&population, &mut archive, params);
        let ghost cur = views(population@);
        let ghost old_history = history@;
        history.push(GenerationRecord { population, evaluations });
        let ghost pops2 = recorded_populations(history@);
        assert(pops2 =~= pops.push(cur));
        assert forall|h: int| 0 <= h <= g implies #[trigger] archive_through(pops2, k, t, h as nat) == archive_through(pops, k, t, h as nat) by {
            lemma_archive_through_prefix(pops2, pops, k, t, h as nat);
        }
        assert(history@[g as int].evaluations@ == evaluations@);
        assert forall|h: int| 0 <= h < g + 1 implies evaluations_match(
            #[trigger] history@[h].evaluations@,
            pops2[h],
            archive_through(pops2, k, t, h as nat),
            k,
            t,
        ) by {
            if h < g {
                assert(history@[h] == old_history[h]);
            }
        }
        assert forall|h: int| 0 <= h < g implies bred_from(
            #[trigger] pops2[h + 1],
            pops2[h],
            scores_of(history@[h].evaluations@),
            *params,
            n,
        ) by {
            if h < g - 1 {
                assert(history@[h] == old_history[h]);
            } else {
                assert(history@[h] == old_history.last());
            }
        }
        population = next;
        g = g + 1;
    }
    Ok(RunOutcome { population, archive, history })
}

} // verus!
