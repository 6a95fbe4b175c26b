//! The archive of novel vectors, and the evaluation pass that fills it.
use vstd::prelude::*;

use crate::metric::{views, MAX_DIMENSION};
use crate::novelty::{comparison_pool, novelty, novelty_outcome, novelty_score, same_dimension};
use crate::NoveltyError;

verus! {

/// The result of evaluating one individual: its novelty score, and whether
/// it was admitted to the archive.
#[derive(Debug, Clone, Copy, PartialEq, Eq, Structural)]
pub struct Evaluation {
    pub score: u64,
    pub admitted: bool,
}

/// Every vector of `vs` has exactly `n` components.
pub open spec fn uniform(vs: Seq<Seq<i32>>, n: nat) -> bool {
    forall|i: int| 0 <= i < vs.len() ==> #[trigger] vs[i].len() == n
}

/// The novelty of individual `i` with the archive as it stands.
pub open spec fn score_in(population: Seq<Seq<i32>>, archive: Seq<Seq<i32>>, k: nat, i: int) -> int {
    novelty_score(population[i], comparison_pool(population, archive, i), k)
}

/// The archive once individuals `0..i` have been evaluated in order, each
/// admitted when its novelty exceeds `threshold`.
pub open spec fn archive_after(
    population: Seq<Seq<i32>>,
    archive: Seq<Seq<i32>>,
    k: nat,
    threshold: int,
    i: nat,
) -> Seq<Seq<i32>>
    decreases i,
{
    if i == 0 {
        archive
    } else {
        let m = (i - 1) as nat;
        let before = archive_after(population, archive, k, threshold, m);
        if score_in(population, before, k, m as int) > threshold {
            before.push(population[m as int])
        } else {
            before
        }
    }
}

/// The archive only grows: whatever an evaluation pass admits is appended
/// after the entries that were there before.
pub proof fn lemma_archive_grows(
    population: Seq<Seq<i32>>,
    archive: Seq<Seq<i32>>,
    k: nat,
    threshold: int,
    i: nat,
)
    ensures
        archive.len() <= archive_after(population, archive, k, threshold, i).len(),
        archive_after(population, archive, k, threshold, i).take(archive.len() as int) == archive,
    decreases i,
{
    if i > 0 {
        let m = (i - 1) as nat;
        lemma_archive_grows(population, archive, k, threshold, m);
        let before = archive_after(population, archive, k, threshold, m);
        assert(before.push(population[m as int]).take(archive.len() as int) =~= before.take(archive.len() as int));
    }
    assert(archive.take(archive.len() as int) =~= archive);
}

/// Evaluating individual `i` appends it to the archive exactly when its
/// novelty is strictly greater than the threshold, and leaves the archive
/// as it was otherwise.
pub proof fn lemma_admitted_iff_above_threshold(
    population: Seq<Seq<i32>>,
    archive: Seq<Seq<i32>>,
    k: nat,
    threshold: int,
    i: nat,
)
    requires
        i < population.len(),
    ensures
        ({
            let before = archive_after(population, archive, k, threshold, i);
            let after = archive_after(population, archive, k, threshold, i + 1);
            &&& (after.len() == before.len() + 1) == (score_in(population, before, k, i as int) > threshold)
            &&& after.len() == before.len() + 1 ==> after.last() == population[i as int]
            &&& after.len() != before.len() + 1 ==> after == before
            &&& after.take(before.len() as int) == before
        }),
{
    let before = archive_after(population, archive, k, threshold, i);
    assert(archive_after(population, archive, k, threshold, i + 1) == if score_in(population, before, k, i as int)
        > threshold {
        before.push(population[i as int])
    } else {
        before
    });
    assert(before.push(population[i as int]).take(before.len() as int) =~= before);
    assert(before.take(before.len() as int) =~= before);
}

/// A copy of `v`, element by element.
pub fn copy_vector(v: &Vec<i32>) -> (r: Vec<i32>)
    ensures
        r@ == v@,
{
    let mut r: Vec<i32> = Vec::new();
    let mut i: usize = 0;
    while i < v.len()
        invariant
            i <= v@.len(),
            r@ == v@.take(i as int),
        decreases v@.len() - i,
    {
        assert(v@.take(i as int + 1) =~= v@.take(i as int).push(v@[i as int]));
        r.push(v[i]);
        i = i + 1;
    }
    assert(v@.take(v@.len() as int) =~= v@);
    r
}

/// Appends a copy of `agent` to the archive when `score` is strictly
/// greater than `threshold`, and reports whether it did.
pub fn consider_for_archive(archive: &mut Vec<Vec<i32>>, agent: &Vec<i32>, score: u64, threshold: u64) -> (added: bool)
    ensures
        added == (score > threshold),
        views(final(archive)@) == if added {
            views(old(archive)@).push(agent@)
        } else {
            views(old(archive)@)
        },
{
    if score > threshold {
        let ghost before = archive@;
        archive.push(copy_vector(agent));
        assert(views(archive@) =~= views(before).push(agent@));
        true
    } else {
        false
    }
}

/// Evaluates every individual in population order: each is scored against
/// the archive as it stands, including what earlier individuals of the same
/// pass added, and is admitted at once when its score exceeds `threshold`.
pub fn evaluate_generation(
    population: &Vec<Vec<i32>>,
    archive: &mut Vec<Vec<i32>>,
    k: usize,
    threshold: u64,
) -> (r: Vec<Evaluation>)
    requires
        k > 0,
        population@.len() >= 2,
        population@[0]@.len() <= MAX_DIMENSION,
        uniform(views(population@), population@[0]@.len()),
        uniform(views(old(archive)@), population@[0]@.len()),
    ensures
        r@.len() == population@.len(),
        views(final(archive)@) == archive_after(
            views(population@),
            views(old(archive)@),
            k as nat,
            threshold as int,
            population@.len(),
        ),
        uniform(views(final(archive)@), population@[0]@.len()),
        forall|i: int|
            0 <= i < r@.len() ==> {
                &&& #[trigger] r@[i].score == score_in(
                    views(population@),
                    archive_after(views(population@), views(old(archive)@), k as nat, threshold as int, i as nat),
                    k as nat,
                    i,
                )
                &&& r@[i].admitted == (r@[i].score > threshold)
            },
{
    let ghost pop = views(population@);
    let ghost start = views(archive@);
    let ghost n = population@[0]@.len();
    let mut r: Vec<Evaluation> = Vec::new();
    let mut i: usize = 0;
    while i < population.len()
        invariant
            i <= population@.len(),
            k > 0,
            population@.len() >= 2,
            n == population@[0]@.len(),
            n <= MAX_DIMENSION,
            pop == views(population@),
            uniform(pop, n),
            uniform(views(archive@), n),
            views(archive@) == archive_after(pop, start, k as nat, threshold as int, i as nat),
            r@.len() == i,
            forall|j: int|
                0 <= j < i ==> {
                    &&& #[trigger] r@[j].score == score_in(
                        pop,
                        archive_after(pop, start, k as nat, threshold as int, j as nat),
                        k as nat,
                        j,
                    )
                    &&& r@[j].admitted == (r@[j].score > threshold)
                },
        decreases population@.len() - i,
    {
        let ghost pool = comparison_pool(pop, views(archive@), i as int);
        assert(pop[i as int] == population@[i as int]@);
        assert(same_dimension(pop[i as int], pool)) by {
            assert forall|t: int| 0 <= t < pool.len() implies #[trigger] pool[t].len() == pop[i as int].len() by {
                if t < archive@.len() {
                    assert(pool[t] == views(archive@)[t]);
                } else if t - archive@.len() < i {
                    assert(pool[t] == pop[t - archive@.len()]);
                } else {
                    assert(pool[t] == pop[t - archive@.len() + 1]);
                }
            }
        }
        let score = match novelty(i, population, archive, k) {
            Ok(s) => s,
            Err(e) => {
                assert(novelty_outcome(pop[i as int], pool, k as nat) is Ok);
                return r;
            },
        };
        let added = consider_for_archive(archive, &population[i], score, threshold);
        assert(uniform(views(archive@), n));
        r.push(Evaluation { score, admitted: added });
        i = i + 1;
    }
    r
}

} // verus!
