//! Novelty of an individual: the mean distance to its nearest neighbours
//! among the archive and the rest of the population.
use vstd::prelude::*;

use crate::metric::{distance, spec_distance, views, MAX_DIMENSION};
use crate::NoveltyError;

verus! {

/// What individual `i` is compared with: the archive, followed by every
/// other member of the population, in order.
pub open spec fn comparison_pool(population: Seq<Seq<i32>>, archive: Seq<Seq<i32>>, i: int) -> Seq<Seq<i32>> {
    archive + population.remove(i)
}

/// The distances from `agent` to each vector of `pool`, in order.
pub open spec fn distances_to(agent: Seq<i32>, pool: Seq<Seq<i32>>) -> Seq<u64> {
    pool.map_values(|v: Seq<i32>| spec_distance(agent, v) as u64)
}

/// Every vector of `pool` has as many components as `agent`.
pub open spec fn same_dimension(agent: Seq<i32>, pool: Seq<Seq<i32>>) -> bool {
    forall|t: int| 0 <= t < pool.len() ==> #[trigger] pool[t].len() == agent.len()
}

/// The index of the first smallest value of a nonempty sequence.
pub open spec fn first_min_index(d: Seq<u64>) -> int
    decreases d.len(),
{
    if d.len() <= 1 {
        0
    } else {
        let m = first_min_index(d.drop_last());
        if d.last() < d[m] {
            d.len() - 1
        } else {
            m
        }
    }
}

/// The sum of the `k` smallest values of `d` (of all of them, if `d` holds fewer).
pub open spec fn sum_of_smallest(d: Seq<u64>, k: nat) -> int
    decreases k,
{
    if k == 0 || d.len() == 0 {
        0
    } else {
        let m = first_min_index(d);
        d[m] + sum_of_smallest(d.remove(m), (k - 1) as nat)
    }
}

/// The number of neighbours that count: `k`, or the pool's size if that is smaller.
pub open spec fn neighbour_count(k: nat, pool_len: nat) -> nat {
    if k < pool_len {
        k
    } else {
        pool_len
    }
}

/// The novelty of `agent` against a nonempty `pool`: the mean of its
/// `neighbour_count` smallest distances, rounded down.
pub open spec fn novelty_score(agent: Seq<i32>, pool: Seq<Seq<i32>>, k: nat) -> int {
    let kk = neighbour_count(k, pool.len());
    sum_of_smallest(distances_to(agent, pool), kk) / (kk as int)
}

/// How a novelty computation ends.
pub open spec fn novelty_outcome(agent: Seq<i32>, pool: Seq<Seq<i32>>, k: nat) -> Result<int, NoveltyError> {
    if k == 0 {
        Err(NoveltyError::InvalidParameters)
    } else if pool.len() == 0 {
        Err(NoveltyError::EmptyComparisonPool)
    } else if !same_dimension(agent, pool) {
        Err(NoveltyError::DimensionMismatch)
    } else {
        Ok(novelty_score(agent, pool, k))
    }
}

proof fn lemma_first_min_index(d: Seq<u64>)
    requires
        d.len() > 0,
    ensures
        0 <= first_min_index(d) < d.len(),
        forall|t: int| 0 <= t < d.len() ==> d[first_min_index(d)] <= #[trigger] d[t],
    decreases d.len(),
{
    if d.len() > 1 {
        let e = d.drop_last();
        lemma_first_min_index(e);
        let m = first_min_index(e);
        assert forall|t: int| 0 <= t < d.len() implies d[first_min_index(d)] <= #[trigger] d[t] by {
            if t < d.len() - 1 {
                assert(d[t] == e[t]);
            }
            assert(d[m] == e[m]);
        }
    }
}

proof fn lemma_sum_of_smallest_nonneg(d: Seq<u64>, k: nat)
    ensures
        sum_of_smallest(d, k) >= 0,
    decreases k,
{
    if k > 0 && d.len() > 0 {
        lemma_first_min_index(d);
        lemma_sum_of_smallest_nonneg(d.remove(first_min_index(d)), (k - 1) as nat);
    }
}

/// A novelty score over a nonempty pool is never negative.
pub proof fn lemma_novelty_nonnegative(agent: Seq<i32>, pool: Seq<Seq<i32>>, k: nat)
    requires
        k > 0,
        pool.len() > 0,
    ensures
        novelty_score(agent, pool, k) >= 0,
{
    let kk = neighbour_count(k, pool.len());
    lemma_sum_of_smallest_nonneg(distances_to(agent, pool), kk);
    let s = sum_of_smallest(distances_to(agent, pool), kk);
    assert(s / (kk as int) >= 0) by (nonlinear_arith)
        requires
            s >= 0,
            kk > 0,
    ;
}

/// The index of the first smallest value of `d`.
fn first_min(d: &Vec<u64>) -> (m: usize)
    requires
        d@.len() > 0,
    ensures
        m == first_min_index(d@),
        m < d@.len(),
{
    proof {
        lemma_first_min_index(d@);
    }
    let mut m: usize = 0;
    let mut i: usize = 1;
    assert(d@.take(1).len() == 1);
    while i < d.len()
        invariant
            1 <= i <= d@.len(),
            m < i,
            m == first_min_index(d@.take(i as int)),
        decreases d@.len() - i,
    {
        assert(d@.take(i as int + 1).drop_last() =~= d@.take(i as int));
        if d[i] < d[m] {
            m = i;
        }
        i = i + 1;
    }
    assert(d@.take(d@.len() as int) =~= d@);
    m
}

/// The sum of the `k` smallest values of `d`.
fn smallest_sum(d: Vec<u64>, k: usize) -> (r: u128)
    requires
        k <= d@.len(),
    ensures
        r == sum_of_smallest(d@, k as nat),
        r <= k * 0xFFFF_FFFF_FFFF_FFFF,
{
    let ghost whole = d@;
    let mut rest = d;
    let mut total: u128 = 0;
    let mut j: usize = 0;
    while j < k
        invariant
            j <= k <= whole.len(),
            rest@.len() == whole.len() - j,
            total + sum_of_smallest(rest@, (k - j) as nat) == sum_of_smallest(whole, k as nat),
            total <= j * 0xFFFF_FFFF_FFFF_FFFF,
        decreases k - j,
    {
        let m = first_min(&rest);
        let ghost before = rest@;
        let v = rest.remove(m);
        assert(rest@ =~= before.remove(m as int));
        assert(j * 0xFFFF_FFFF_FFFF_FFFF + 0xFFFF_FFFF_FFFF_FFFF <= 0x1_0000_0000_0000_0000 * 0xFFFF_FFFF_FFFF_FFFF) by (nonlinear_arith)
            requires
                j < 0x1_0000_0000_0000_0000,
        ;
        total = total + v as u128;
        j = j + 1;
    }
    total
}

/// The novelty of `population[index]` against the archive and the other
/// members of the population, with `k` neighbours.
///
/// Refused with `InvalidParameters` when `k` is zero, with
/// `EmptyComparisonPool` when there is nothing to compare with, and with
/// `DimensionMismatch` when a vector of the pool differs in length.
pub fn novelty(index: usize, population: &Vec<Vec<i32>>, archive: &Vec<Vec<i32>>, k: usize) -> (r: Result<u64, NoveltyError>)
    requires
        index < population@.len(),
        population@[index as int]@.len() <= MAX_DIMENSION,
    ensures
        match r {
            Ok(s) => novelty_outcome(
                population@[index as int]@,
                comparison_pool(views(population@), views(archive@), index as int),
                k as nat,
            ) == Ok::<int, NoveltyError>(s as int),
            Err(e) => novelty_outcome(
                population@[index as int]@,
                comparison_pool(views(population@), views(archive@), index as int),
                k as nat,
            ) == Err::<int, NoveltyError>(e),
        },
{
    let ghost agent = population@[index as int]@;
    let ghost pool = comparison_pool(views(population@), views(archive@), index as int);
    assert(pool.len() == archive@.len() + population@.len() - 1);
    if k == 0 {
        return Err(NoveltyError::InvalidParameters);
    }
    if archive.len() == 0 && population.len() == 1 {
        return Err(NoveltyError::EmptyComparisonPool);
    }
    let me = &population[index];
    let mut d: Vec<u64> = Vec::new();
    let mut j: usize = 0;
    while j < archive.len()
        invariant
            j <= archive@.len(),
            index < population@.len(),
            agent == population@[index as int]@,
            me@ == agent,
            agent.len() <= MAX_DIMENSION,
            pool == comparison_pool(views(population@), views(archive@), index as int),
            pool.len() == archive@.len() + population@.len() - 1,
            k > 0,
            d@.len() == j,
            forall|t: int| 0 <= t < j ==> #[trigger] d@[t] == spec_distance(agent, pool[t]),
            forall|t: int| 0 <= t < j ==> #[trigger] pool[t].len() == agent.len(),
        decreases archive@.len() - j,
    {
        assert(pool[j as int] == archive@[j as int]@);
        match distance(me, &archive[j]) {
            Ok(x) => {
                d.push(x);
            },
            Err(e) => {
                assert(!same_dimension(agent, pool));
                return Err(e);
            },
        }
        j = j + 1;
    }
    let mut p: usize = 0;
    while p < population.len()
        invariant
            j == archive@.len(),
            p <= population@.len(),
            index < population@.len(),
            me@ == agent,
            agent == population@[index as int]@,
            agent.len() <= MAX_DIMENSION,
            pool == comparison_pool(views(population@), views(archive@), index as int),
            pool.len() == archive@.len() + population@.len() - 1,
            k > 0,
            d@.len() == j + p - (if p > index { 1int } else { 0int }),
            forall|t: int| 0 <= t < d@.len() ==> #[trigger] d@[t] == spec_distance(agent, pool[t]),
            forall|t: int| 0 <= t < d@.len() ==> #[trigger] pool[t].len() == agent.len(),
        decreases population@.len() - p,
    {
        if p != index {
            let ghost t = d@.len() as int;
            assert(pool[t] == population@[p as int]@);
            match distance(me, &population[p]) {
                Ok(x) => {
                    d.push(x);
                },
                Err(e) => {
                    assert(!same_dimension(agent, pool));
                    return Err(e);
                },
            }
        }
        p = p + 1;
    }
    assert(d@ =~= distances_to(agent, pool));
    let kk: usize = if k < d.len() { k } else { d.len() };
    let total = smallest_sum(d, kk);
    assert(total / (kk as u128) <= 0xFFFF_FFFF_FFFF_FFFF) by (nonlinear_arith)
        requires
            total <= kk * 0xFFFF_FFFF_FFFF_FFFF,
            kk > 0,
    ;
    Ok((total / (kk as u128)) as u64)
}

} // verus!
