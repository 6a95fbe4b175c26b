//! Elitist selection: the best-scoring individuals, best first, ties broken
//! in favour of the earlier position.
use vstd::prelude::*;

verus! {

/// Individual `a` ranks before individual `b`: it scored higher, or scored
/// the same and stands earlier in the population.
pub open spec fn ranks_before(scores: Seq<u64>, a: int, b: int) -> bool {
    scores[a] > scores[b] || (scores[a] == scores[b] && a < b)
}

/// `chosen` lists the `count` best-ranked individuals, from the best down.
pub open spec fn is_elite_choice(scores: Seq<u64>, chosen: Seq<usize>, count: nat) -> bool {
    &&& chosen.len() == count
    &&& forall|p: int| 0 <= p < chosen.len() ==> #[trigger] chosen[p] < scores.len()
    &&& forall|p: int, q: int|
        0 <= p < q < chosen.len() ==> ranks_before(scores, #[trigger] chosen[p] as int, #[trigger] chosen[q] as int)
    &&& forall|p: int, i: int|
        0 <= p < chosen.len() && 0 <= i < scores.len() && !chosen.contains(i as usize)
            ==> #[trigger] ranks_before(scores, chosen[p] as int, i)
}

/// Selection picks exactly `count` distinct individuals, and none left out
/// scored higher than one that was picked.
pub proof fn lemma_elites_are_best(scores: Seq<u64>, chosen: Seq<usize>, count: nat)
    requires
        is_elite_choice(scores, chosen, count),
    ensures
        chosen.len() == count,
        forall|p: int, q: int| 0 <= p < q < chosen.len() ==> #[trigger] chosen[p] != #[trigger] chosen[q],
        forall|p: int, i: int|
            0 <= p < chosen.len() && 0 <= i < scores.len() && !chosen.contains(i as usize)
                ==> scores[#[trigger] chosen[p] as int] >= #[trigger] scores[i],
{
    assert forall|p: int, i: int|
        0 <= p < chosen.len() && 0 <= i < scores.len() && !chosen.contains(i as usize)
            implies scores[#[trigger] chosen[p] as int] >= #[trigger] scores[i] by {
        assert(ranks_before(scores, chosen[p] as int, i));
    }
}

/// The `count` best-ranked individuals, from the best down.
pub open spec fn elite_indices(scores: Seq<u64>, count: nat) -> Seq<usize> {
    choose|chosen: Seq<usize>| is_elite_choice(scores, chosen, count)
}

/// If `a` and `b` are elite choices that agree below position `p`, then
/// `b[p]` ranks before or equals `a[p]`.
proof fn lemma_next_elite(scores: Seq<u64>, a: Seq<usize>, b: Seq<usize>, count: nat, p: int)
    requires
        is_elite_choice(scores, a, count),
        is_elite_choice(scores, b, count),
        0 <= p < count,
        forall|q: int| 0 <= q < p ==> a[q] == b[q],
        a[p] != b[p],
    ensures
        ranks_before(scores, a[p] as int, b[p] as int),
{
    let c2 = b[p];
    if a.contains(c2) {
        let q = choose|q: int| 0 <= q < a.len() && a[q] == c2;
        if q < p {
            assert(b[q] == c2);
            assert(ranks_before(scores, b[q] as int, b[p] as int));
        } else {
            assert(ranks_before(scores, a[p] as int, a[q] as int));
        }
    } else {
        assert(ranks_before(scores, a[p] as int, c2 as int));
    }
}

proof fn lemma_elite_prefix_agrees(scores: Seq<u64>, a: Seq<usize>, b: Seq<usize>, count: nat, p: int)
    requires
        is_elite_choice(scores, a, count),
        is_elite_choice(scores, b, count),
        0 <= p <= count,
    ensures
        forall|q: int| 0 <= q < p ==> a[q] == b[q],
    decreases p,
{
    if p > 0 {
        lemma_elite_prefix_agrees(scores, a, b, count, p - 1);
        if a[p - 1] != b[p - 1] {
            lemma_next_elite(scores, a, b, count, p - 1);
            lemma_next_elite(scores, b, a, count, p - 1);
        }
    }
}

/// There is exactly one elite choice of each size up to the population's.
pub proof fn lemma_elite_choice_unique(scores: Seq<u64>, a: Seq<usize>, b: Seq<usize>, count: nat)
    requires
        is_elite_choice(scores, a, count),
        is_elite_choice(scores, b, count),
    ensures
        a == b,
{
    lemma_elite_prefix_agrees(scores, a, b, count, count as int);
    assert(a =~= b);
}

/// Whether `order` lists every index below `len`.
spec fn covers(order: Seq<usize>, len: int) -> bool {
    forall|j: int| 0 <= j < len ==> #[trigger] listed(order, j)
}

/// Whether `j` occurs in `order`.
spec fn listed(order: Seq<usize>, j: int) -> bool {
    exists|q: int| 0 <= q < order.len() && order[q] == j
}

/// The indices of the `count` best-scoring individuals, best first; of two
/// equal scores the earlier position ranks first.
pub fn select_elites(scores: &Vec<u64>, count: usize) -> (chosen: Vec<usize>)
    requires
        count <= scores@.len(),
    ensures
        is_elite_choice(scores@, chosen@, count as nat),
        chosen@ == elite_indices(scores@, count as nat),
{
    let ghost s = scores@;
    let mut order: Vec<usize> = Vec::new();
    let mut i: usize = 0;
    while i < scores.len()
        invariant
            i <= s.len(),
            s == scores@,
            order@.len() == i,
            forall|q: int| 0 <= q < order@.len() ==> #[trigger] order@[q] < i,
            forall|p: int, q: int|
                0 <= p < q < order@.len() ==> ranks_before(s, #[trigger] order@[p] as int, #[trigger] order@[q] as int),
            covers(order@, i as int),
        decreases s.len() - i,
    {
        let mut pos: usize = 0;
        while pos < order.len() && scores[order[pos]] >= scores[i]
            invariant
                pos <= order@.len(),
                i < s.len(),
                s == scores@,
                forall|q: int| 0 <= q < order@.len() ==> #[trigger] order@[q] < i,
                forall|q: int| 0 <= q < pos ==> ranks_before(s, #[trigger] order@[q] as int, i as int),
            decreases order@.len() - pos,
        {
            pos = pos + 1;
        }
        let ghost old_order = order@;
        order.insert(pos, i);
        assert(order@ == old_order.insert(pos as int, i));
        assert forall|p: int, q: int|
            0 <= p < q < order@.len() implies ranks_before(s, #[trigger] order@[p] as int, #[trigger] order@[q] as int) by {
            if pos < old_order.len() {
                assert(ranks_before(s, i as int, old_order[pos as int] as int));
            }
            if q == pos {
                assert(order@[p] == old_order[p]);
            } else if p == pos {
                assert(order@[q] == old_order[q - 1]);
                if q - 1 > pos {
                    assert(ranks_before(s, old_order[pos as int] as int, old_order[q - 1] as int));
                }
            } else {
            }
        }
        assert forall|j: int| 0 <= j < i + 1 implies #[trigger] listed(order@, j) by {
            if j == i {
                assert(order@[pos as int] == j);
            } else {
                assert(listed(old_order, j));
                let q = choose|q: int| 0 <= q < old_order.len() && old_order[q] == j;
                if q < pos {
                    assert(order@[q] == j);
                } else {
                    assert(order@[q + 1] == j);
                }
            }
        }
        i = i + 1;
    }
    let mut chosen: Vec<usize> = Vec::new();
    let mut c: usize = 0;
    while c < count
        invariant
            c <= count <= order@.len(),
            chosen@ == order@.take(c as int),
        decreases count - c,
    {
        chosen.push(order[c]);
        c = c + 1;
        assert(chosen@ =~= order@.take(c as int));
    }
    assert forall|p: int, j: int|
        0 <= p < chosen@.len() && 0 <= j < s.len() && !chosen@.contains(j as usize)
            implies #[trigger] ranks_before(s, chosen@[p] as int, j) by {
        assert(listed(order@, j));
        let q = choose|q: int| 0 <= q < order@.len() && order@[q] == j;
        if q < count {
            assert(chosen@[q] == j as usize);
        }
    }
    proof {
        lemma_elite_choice_unique(s, chosen@, elite_indices(s, count as nat), count as nat);
    }
    chosen
}

} // verus!
