//! Genomes and how well they fit a target.
//!
//! A genome is a sequence of alphabet symbols. Its fitness against a target is
//! the number of positions at which the two agree.

use crate::alphabet::is_symbol;
use crate::text::chars_of;
use vstd::prelude::*;

verus! {

/// A genome of `size` symbols.
pub open spec fn is_genome(genome: Seq<char>, size: nat) -> bool {
    &&& genome.len() == size
    &&& forall|i: int| 0 <= i < genome.len() ==> is_symbol(#[trigger] genome[i])
}

/// Number of positions the two sequences share: the length of the shorter.
pub open spec fn overlap(target: Seq<char>, genome: Seq<char>) -> nat {
    if target.len() <= genome.len() {
        target.len()
    } else {
        genome.len()
    }
}

/// The positions both sequences have and at which they hold the same
/// character.
pub open spec fn agreeing_positions(target: Seq<char>, genome: Seq<char>) -> Set<int> {
    Set::new(|i: int| 0 <= i < target.len() && i < genome.len() && target[i] == genome[i])
}

/// Fitness of `genome` against `target`: the number of positions at which
/// they agree. Where the lengths differ, positions past the shorter of the
/// two count for nothing.
pub open spec fn fitness_of(target: Seq<char>, genome: Seq<char>) -> nat {
    agreeing_positions(target, genome).len()
}

/// Number of positions below `upto` at which `target` and `genome` agree,
/// counted one position at a time.
pub open spec fn agreements(target: Seq<char>, genome: Seq<char>, upto: nat) -> nat
    decreases upto,
{
    if upto == 0 {
        0
    } else {
        let before = agreements(target, genome, (upto - 1) as nat);
        if target[upto - 1] == genome[upto - 1] {
            before + 1
        } else {
            before
        }
    }
}

/// Counting position by position up to `upto` gives the number of agreeing
/// positions below `upto`.
proof fn lemma_agreements_count(target: Seq<char>, genome: Seq<char>, upto: nat)
    requires
        upto <= overlap(target, genome),
    ensures
        agreeing_positions(target, genome).filter(|i: int| i < upto).finite(),
        agreements(target, genome, upto) == agreeing_positions(target, genome).filter(
            |i: int| i < upto,
        ).len(),
    decreases upto,
{
    let all = agreeing_positions(target, genome);
    let below = all.filter(|i: int| i < upto);
    if upto == 0 {
        assert(below =~= Set::empty());
    } else {
        let last = upto - 1;
        let earlier = all.filter(|i: int| i < last);
        lemma_agreements_count(target, genome, last as nat);
        if target[last] == genome[last] {
            assert(below =~= earlier.insert(last));
        } else {
            assert(below =~= earlier);
        }
    }
}

/// Fitness is what counting position by position over the shared positions
/// gives.
pub proof fn lemma_fitness_is_agreements(target: Seq<char>, genome: Seq<char>)
    ensures
        agreeing_positions(target, genome).finite(),
        fitness_of(target, genome) == agreements(target, genome, overlap(target, genome)),
{
    let all = agreeing_positions(target, genome);
    let shared = overlap(target, genome);
    lemma_agreements_count(target, genome, shared);
    assert(all.filter(|i: int| i < shared) =~= all);
}

/// No more positions agree than were counted.
proof fn lemma_agreements_bounded(target: Seq<char>, genome: Seq<char>, upto: nat)
    ensures
        agreements(target, genome, upto) <= upto,
    decreases upto,
{
    if upto > 0 {
        lemma_agreements_bounded(target, genome, (upto - 1) as nat);
    }
}

/// All counted positions agree exactly when the two sequences are the same
/// on those positions.
proof fn lemma_agreements_full(target: Seq<char>, genome: Seq<char>, upto: nat)
    ensures
        agreements(target, genome, upto) == upto <==> forall|i: int|
            0 <= i < upto ==> target[i] == genome[i],
    decreases upto,
{
    if upto > 0 {
        let before = (upto - 1) as nat;
        lemma_agreements_full(target, genome, before);
        lemma_agreements_bounded(target, genome, before);
    }
}

/// Fitness lies between zero and the number of shared positions, so never
/// above the target's length.
pub proof fn lemma_fitness_bounded(target: Seq<char>, genome: Seq<char>)
    ensures
        0 <= fitness_of(target, genome) <= overlap(target, genome) <= target.len(),
{
    lemma_fitness_is_agreements(target, genome);
    lemma_agreements_bounded(target, genome, overlap(target, genome));
}

/// For a genome as long as the target, fitness reaches the target's length
/// exactly when the genome is the target.
pub proof fn lemma_fitness_full_iff_equal(target: Seq<char>, genome: Seq<char>)
    requires
        genome.len() == target.len(),
    ensures
        fitness_of(target, genome) == target.len() <==> genome == target,
{
    lemma_fitness_is_agreements(target, genome);
    lemma_agreements_full(target, genome, target.len());
    if fitness_of(target, genome) == target.len() {
        assert(genome =~= target);
    }
}

/// Every target fits itself perfectly.
pub proof fn lemma_fitness_of_self(target: Seq<char>)
    ensures
        fitness_of(target, target) == target.len(),
{
    lemma_fitness_full_iff_equal(target, target);
}

/// Counts the positions at which `genome` agrees with `target`.
pub fn fitness(target: &str, genome: &str) -> (score: usize)
    ensures
        score == fitness_of(target@, genome@),
{
    let wanted = chars_of(target);
    let given = chars_of(genome);
    let shared: usize = if wanted.len() <= given.len() {
        wanted.len()
    } else {
        given.len()
    };
    let mut score: usize = 0;
    let mut i: usize = 0;
    while i < shared
        invariant
            i <= shared,
            shared == overlap(wanted@, given@),
            score == agreements(wanted@, given@, i as nat),
            score <= i,
        decreases shared - i,
    {
        if wanted[i] == given[i] {
            score += 1;
        }
        i += 1;
    }
    proof {
        lemma_fitness_is_agreements(target@, genome@);
    }
    score
}

} // verus!
