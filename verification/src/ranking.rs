//! Ordering genomes from most to least fit.

use crate::genome::{fitness, fitness_of};
use vstd::prelude::*;

verus! {

broadcast use vstd::seq_lib::group_to_multiset_ensures;

/// The contents of a list of strings.
pub open spec fn texts(strings: Seq<String>) -> Seq<Seq<char>> {
    Seq::new(strings.len(), |i: int| strings[i]@)
}

/// The genomes stand in order of non-increasing fitness against `target`.
pub open spec fn ranked(target: Seq<char>, genomes: Seq<Seq<char>>) -> bool {
    forall|i: int, j: int|
        0 <= i <= j < genomes.len() ==> fitness_of(target, #[trigger] genomes[i]) >= fitness_of(
            target,
            #[trigger] genomes[j],
        )
}

/// `after` holds the genomes of `before` in another order: the genome at
/// position `k` of `after` stood at position `origin[k]` of `before`, and no
/// two come from the same position.
pub open spec fn rearranges(before: Seq<Seq<char>>, after: Seq<Seq<char>>, origin: Seq<int>) -> bool {
    &&& origin.len() == after.len()
    &&& after.len() == before.len()
    &&& forall|k: int|
        0 <= k < after.len() ==> 0 <= #[trigger] origin[k] < before.len() && after[k]
            == before[origin[k]]
    &&& forall|i: int, j: int|
        0 <= i < j < origin.len() ==> #[trigger] origin[i] != #[trigger] origin[j]
}

/// Genomes of equal fitness stand in the order in which they stood before.
pub open spec fn keeps_ties_in_order(
    target: Seq<char>,
    after: Seq<Seq<char>>,
    origin: Seq<int>,
) -> bool {
    forall|i: int, j: int|
        0 <= i < j < after.len() && fitness_of(target, after[i]) == fitness_of(target, after[j])
            ==> #[trigger] origin[i] < #[trigger] origin[j]
}

/// `after` is `before` ranked against `target`: most fit first, the same
/// genomes, and those of equal fitness in the order they had.
pub open spec fn is_ranking_of(
    target: Seq<char>,
    before: Seq<Seq<char>>,
    after: Seq<Seq<char>>,
) -> bool {
    &&& ranked(target, after)
    &&& after.to_multiset() == before.to_multiset()
    &&& exists|origin: Seq<int>|
        #[trigger] rearranges(before, after, origin) && keeps_ties_in_order(target, after, origin)
}

/// Being ranked is the same as no genome being less fit than its successor.
pub proof fn lemma_ranked_iff_neighbours_ordered(target: Seq<char>, genomes: Seq<Seq<char>>)
    ensures
        ranked(target, genomes) <==> forall|i: int|
            0 <= i < genomes.len() - 1 ==> fitness_of(target, #[trigger] genomes[i])
                >= fitness_of(target, genomes[i + 1]),
{
    if forall|i: int|
        0 <= i < genomes.len() - 1 ==> fitness_of(target, #[trigger] genomes[i]) >= fitness_of(
            target,
            genomes[i + 1],
        ) {
        assert forall|i: int, j: int| 0 <= i <= j < genomes.len() implies fitness_of(
            target,
            #[trigger] genomes[i],
        ) >= fitness_of(target, #[trigger] genomes[j]) by {
            lemma_neighbours_ordered_spans(target, genomes, i, j);
        }
    }
    if ranked(target, genomes) {
        assert forall|i: int| 0 <= i < genomes.len() - 1 implies fitness_of(
            target,
            #[trigger] genomes[i],
        ) >= fitness_of(target, genomes[i + 1]) by {
            assert(fitness_of(target, genomes[i]) >= fitness_of(target, genomes[i + 1]));
        }
    }
}

/// Where every genome is at least as fit as its successor, it is at least as
/// fit as any genome after it.
proof fn lemma_neighbours_ordered_spans(
    target: Seq<char>,
    genomes: Seq<Seq<char>>,
    i: int,
    j: int,
)
    requires
        0 <= i <= j < genomes.len(),
        forall|k: int|
            0 <= k < genomes.len() - 1 ==> fitness_of(target, #[trigger] genomes[k]) >= fitness_of(
                target,
                genomes[k + 1],
            ),
    ensures
        fitness_of(target, genomes[i]) >= fitness_of(target, genomes[j]),
    decreases j - i,
{
    if i < j {
        lemma_neighbours_ordered_spans(target, genomes, i, j - 1);
        assert(fitness_of(target, genomes[j - 1]) >= fitness_of(target, genomes[j]));
    }
}

/// A ranked list is its own ranking.
pub proof fn lemma_ranked_list_is_its_own_ranking(target: Seq<char>, genomes: Seq<Seq<char>>)
    requires
        ranked(target, genomes),
    ensures
        is_ranking_of(target, genomes, genomes),
{
    let origin = Seq::new(genomes.len(), |k: int| k);
    assert(rearranges(genomes, genomes, origin) && keeps_ties_in_order(target, genomes, origin));
}

/// A list has one ranking only: being ranked, holding the same genomes and
/// keeping ties in order leaves no choice.
pub proof fn lemma_ranking_is_unique(
    target: Seq<char>,
    before: Seq<Seq<char>>,
    first: Seq<Seq<char>>,
    second: Seq<Seq<char>>,
)
    requires
        is_ranking_of(target, before, first),
        is_ranking_of(target, before, second),
    ensures
        first == second,
{
    let a = choose|origin: Seq<int>|
        #[trigger] rearranges(before, first, origin) && keeps_ties_in_order(target, first, origin);
    let b = choose|origin: Seq<int>|
        #[trigger] rearranges(before, second, origin) && keeps_ties_in_order(
            target,
            second,
            origin,
        );
    lemma_origins_agree(target, before, first, a, second, b, before.len() as int);
    assert(first =~= second);
}

/// Position `p` of `before` goes ahead of position `q` in any ranking: its
/// genome is fitter, or as fit and earlier.
spec fn goes_ahead(target: Seq<char>, before: Seq<Seq<char>>, p: int, q: int) -> bool {
    fitness_of(target, before[p]) > fitness_of(target, before[q]) || (fitness_of(
        target,
        before[p],
    ) == fitness_of(target, before[q]) && p < q)
}

/// In a ranking, what stands earlier comes from a position that goes ahead.
proof fn lemma_ranking_follows_order(
    target: Seq<char>,
    before: Seq<Seq<char>>,
    after: Seq<Seq<char>>,
    origin: Seq<int>,
    i: int,
    j: int,
)
    requires
        ranked(target, after),
        rearranges(before, after, origin),
        keeps_ties_in_order(target, after, origin),
        0 <= i < j < after.len(),
    ensures
        goes_ahead(target, before, origin[i], origin[j]),
{
    assert(after[i] == before[origin[i]]);
    assert(after[j] == before[origin[j]]);
    assert(fitness_of(target, after[i]) >= fitness_of(target, after[j]));
}

/// A rearrangement takes a genome from every position.
proof fn lemma_every_position_is_taken(
    before: Seq<Seq<char>>,
    after: Seq<Seq<char>>,
    origin: Seq<int>,
    position: int,
)
    requires
        rearranges(before, after, origin),
        0 <= position < before.len(),
    ensures
        exists|k: int| 0 <= k < origin.len() && origin[k] == position,
{
    let positions = vstd::set_lib::set_int_range(0, before.len() as int);
    assert(origin.no_duplicates());
    origin.unique_seq_to_set();
    vstd::set_lib::lemma_int_range(0, before.len() as int);
    assert(origin.to_set().subset_of(positions)) by {
        assert forall|v: int| origin.to_set().contains(v) implies positions.contains(v) by {
            let k = choose|k: int| 0 <= k < origin.len() && origin[k] == v;
            assert(0 <= origin[k] < before.len());
        }
    }
    vstd::set_lib::lemma_len_subset(origin.to_set(), positions);
    vstd::set_lib::lemma_subset_equality(origin.to_set(), positions);
    assert(positions.contains(position));
    assert(origin.contains(position));
}

/// Two rankings of one list take their first `upto` genomes from the same
/// positions.
proof fn lemma_origins_agree(
    target: Seq<char>,
    before: Seq<Seq<char>>,
    first: Seq<Seq<char>>,
    a: Seq<int>,
    second: Seq<Seq<char>>,
    b: Seq<int>,
    upto: int,
)
    requires
        ranked(target, first),
        rearranges(before, first, a),
        keeps_ties_in_order(target, first, a),
        ranked(target, second),
        rearranges(before, second, b),
        keeps_ties_in_order(target, second, b),
        0 <= upto <= before.len(),
    ensures
        forall|k: int| 0 <= k < upto ==> a[k] == b[k] && first[k] == second[k],
    decreases upto,
{
    if upto > 0 {
        let k = upto - 1;
        lemma_origins_agree(target, before, first, a, second, b, k);
        if a[k] != b[k] {
            if goes_ahead(target, before, a[k], b[k]) {
                lemma_every_position_is_taken(before, second, b, a[k]);
                let m = choose|m: int| 0 <= m < b.len() && b[m] == a[k];
                if m < k {
                    assert(a[m] == b[m]);
                } else {
                    lemma_ranking_follows_order(target, before, second, b, k, m);
                }
            } else {
                lemma_every_position_is_taken(before, first, a, b[k]);
                let m = choose|m: int| 0 <= m < a.len() && a[m] == b[k];
                if m < k {
                    assert(a[m] == b[m]);
                } else {
                    lemma_ranking_follows_order(target, before, first, a, k, m);
                }
            }
        }
        assert(first[k] == before[a[k]]);
        assert(second[k] == before[b[k]]);
    }
}

/// The first genome of a ranked list is at least as fit as every other.
pub proof fn lemma_first_is_fittest(target: Seq<char>, genomes: Seq<Seq<char>>)
    requires
        ranked(target, genomes),
        genomes.len() > 0,
    ensures
        forall|i: int|
            0 <= i < genomes.len() ==> fitness_of(target, #[trigger] genomes[i]) <= fitness_of(
                target,
                genomes[0],
            ),
{
    assert forall|i: int| 0 <= i < genomes.len() implies fitness_of(target, #[trigger] genomes[i])
        <= fitness_of(target, genomes[0]) by {
        assert(fitness_of(target, genomes[0]) >= fitness_of(target, genomes[i]));
    }
}

/// Two lists with the same members hold the same genomes: each genome of
/// one stands somewhere in the other.
pub proof fn lemma_same_members(before: Seq<Seq<char>>, after: Seq<Seq<char>>)
    requires
        before.to_multiset() == after.to_multiset(),
    ensures
        before.len() == after.len(),
        forall|i: int| 0 <= i < after.len() ==> before.contains(#[trigger] after[i]),
{
    vstd::seq_lib::to_multiset_len(before);
    vstd::seq_lib::to_multiset_len(after);
    assert forall|i: int| 0 <= i < after.len() implies before.contains(#[trigger] after[i]) by {
        assert(after.contains(after[i]));
        assert(after.to_multiset().count(after[i]) > 0);
    }
}

/// Taking a genome out and putting it back elsewhere keeps the members.
proof fn lemma_move_keeps_members(genomes: Seq<Seq<char>>, from: int, to: int)
    requires
        0 <= to <= from < genomes.len(),
    ensures
        genomes.remove(from).insert(to, genomes[from]).to_multiset() == genomes.to_multiset(),
{
    assert(genomes.contains(genomes[from]));
    assert(genomes.remove(from).insert(to, genomes[from]).to_multiset()
        =~= genomes.to_multiset());
}

/// Moving a genome ahead, and its origin with it, keeps a rearrangement a
/// rearrangement.
proof fn lemma_move_keeps_arrangement(
    before: Seq<Seq<char>>,
    current: Seq<Seq<char>>,
    origin: Seq<int>,
    from: int,
    to: int,
)
    requires
        rearranges(before, current, origin),
        0 <= to <= from < current.len(),
    ensures
        rearranges(
            before,
            current.remove(from).insert(to, current[from]),
            origin.remove(from).insert(to, origin[from]),
        ),
{
    let moved = current.remove(from).insert(to, current[from]);
    let traced = origin.remove(from).insert(to, origin[from]);
    assert forall|k: int| 0 <= k < moved.len() implies 0 <= #[trigger] traced[k] < before.len()
        && moved[k] == before[traced[k]] by {
        if k < to {
            assert(traced[k] == origin[k]);
        } else if k == to {
            assert(traced[k] == origin[from]);
        } else if k <= from {
            assert(traced[k] == origin[k - 1]);
        } else {
            assert(traced[k] == origin[k]);
        }
    }
    assert forall|i: int, j: int| 0 <= i < j < traced.len() implies #[trigger] traced[i]
        != #[trigger] traced[j] by {
        let came_from = |k: int|
            if k < to {
                k
            } else if k == to {
                from
            } else if k <= from {
                k - 1
            } else {
                k
            };
        assert(traced[i] == origin[came_from(i)]);
        assert(traced[j] == origin[came_from(j)]);
        assert(came_from(i) != came_from(j));
        if came_from(i) < came_from(j) {
        } else {
        }
    }
}

/// Reorders `genomes` from most to least fit against `target`, keeping every
/// genome. A list that is already in that order is left as it is.
pub fn rank(target: &String, genomes: &mut Vec<String>)
    ensures
        is_ranking_of(target@, texts(old(genomes)@), texts(final(genomes)@)),
        ranked(target@, texts(old(genomes)@)) ==> texts(final(genomes)@) == texts(old(genomes)@),
{
    let ghost before = texts(genomes@);
    let ghost mut origin: Seq<int> = Seq::new(genomes@.len(), |k: int| k);
    let mut scores: Vec<usize> = Vec::new();
    let mut scored: usize = 0;
    while scored < genomes.len()
        invariant
            scored <= genomes.len(),
            scores.len() == scored,
            texts(genomes@) == before,
            forall|i: int|
                0 <= i < scored ==> scores[i] == fitness_of(target@, #[trigger] genomes[i]@),
        decreases genomes.len() - scored,
    {
        let score: usize = fitness(target.as_str(), genomes[scored].as_str());
        scores.push(score);
        scored += 1;
    }
    let mut placed: usize = 0;
    while placed < genomes.len()
        invariant
            placed <= genomes.len(),
            scores.len() == genomes.len(),
            forall|i: int|
                0 <= i < genomes.len() ==> scores[i] == fitness_of(
                    target@,
                    #[trigger] genomes[i]@,
                ),
            forall|i: int, j: int| 0 <= i <= j < placed ==> scores[i] >= scores[j],
            texts(genomes@).to_multiset() == before.to_multiset(),
            rearranges(before, texts(genomes@), origin),
            forall|k: int| placed <= k < origin.len() ==> origin[k] == k,
            forall|k: int| 0 <= k < placed ==> origin[k] < placed,
            forall|i: int, j: int|
                0 <= i < j < placed && scores[i] == scores[j] ==> origin[i] < origin[j],
        decreases genomes.len() - placed,
    {
        let score: usize = scores[placed];
        let mut slot: usize = 0;
        while slot < placed && scores[slot] >= score
            invariant
                slot <= placed < scores.len(),
                score == scores[placed as int],
                forall|i: int| 0 <= i < slot ==> scores[i] >= score,
            decreases placed - slot,
        {
            slot += 1;
        }
        if slot < placed {
            let ghost unmoved = genomes@;
            let ghost old_scores = scores@;
            let genome = genomes.remove(placed);
            genomes.insert(slot, genome);
            let _ = scores.remove(placed);
            scores.insert(slot, score);
            proof {
                let current = texts(unmoved);
                assert(texts(genomes@) =~= current.remove(placed as int).insert(
                    slot as int,
                    current[placed as int],
                ));
                assert(scores@ =~= old_scores.remove(placed as int).insert(slot as int, score));
                lemma_move_keeps_members(current, placed as int, slot as int);
                lemma_move_keeps_arrangement(before, current, origin, placed as int, slot as int);
                origin = origin.remove(placed as int).insert(slot as int, placed as int);
            }
        }
        placed += 1;
    }
    proof {
        assert(rearranges(before, texts(genomes@), origin) && keeps_ties_in_order(
            target@,
            texts(genomes@),
            origin,
        ));
        if ranked(target@, before) {
            lemma_ranked_list_is_its_own_ranking(target@, before);
            lemma_ranking_is_unique(target@, before, before, texts(genomes@));
        }
    }
}

} // verus!
