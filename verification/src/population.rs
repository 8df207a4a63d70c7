//! The population: a ranked collection of genomes evolving towards a target.

use crate::alphabet::{symbol_at, SYMBOL_COUNT};
use crate::breeding::{
    inherits, lemma_heir_is_genome, lemma_recombined_inherits, meteor_strikes, recombine,
    reinitializes, ROLL_BOUND,
};
use crate::chance::{draw_between, sample_positions, toss};
use crate::error::PopulationError;
use crate::genome::{
    fitness_of, is_genome, lemma_fitness_bounded, lemma_fitness_full_iff_equal,
    lemma_fitness_of_self,
};
use crate::ranking::{
    is_ranking_of, lemma_first_is_fittest, lemma_same_members, rank, ranked, texts,
};
use vstd::prelude::*;

verus! {

broadcast use vstd::seq_lib::group_to_multiset_ensures;

/// Number of genomes a population holds unless told otherwise.
pub const DEFAULT_POPULATION_SIZE: usize = 100;

/// A fixed number of genomes, kept ranked against a target.
#[derive(Debug)]
pub struct Population {
    population_size: usize,
    genome_size: usize,
    target: String,
    genomes: Vec<String>,
}

/// What a population is: its target and its genomes, in order.
pub struct PopulationView {
    pub target: Seq<char>,
    pub genomes: Seq<Seq<char>>,
}

impl PopulationView {
    /// Every genome is made of alphabet symbols and is as long as the target.
    pub open spec fn well_formed(self) -> bool {
        forall|i: int|
            0 <= i < self.genomes.len() ==> is_genome(#[trigger] self.genomes[i], self.target.len())
    }

    /// The genomes stand from most to least fit.
    pub open spec fn ranked(self) -> bool {
        ranked(self.target, self.genomes)
    }

    /// Number of genomes a generation carries over: half, rounded down.
    pub open spec fn survivor_count(self) -> nat {
        self.genomes.len() / 2
    }

    /// The genomes a generation carries over: the leading half.
    pub open spec fn survivors(self) -> Seq<Seq<char>> {
        self.genomes.take(self.survivor_count() as int)
    }

    /// Whether a next generation can be bred: there is nothing to refill, or
    /// two distinct survivors can be drawn as parents.
    pub open spec fn can_breed(self) -> bool {
        self.genomes.len() == 0 || self.survivor_count() >= 2
    }

    /// Some genome is the target.
    pub open spec fn solved(self) -> bool {
        self.genomes.contains(self.target)
    }

    /// `next` is a generation that can follow this one: the same target, and
    /// for genomes the survivors together with as many new genomes as refill
    /// the population, ranked.
    pub open spec fn breeds(self, next: PopulationView) -> bool {
        &&& next.target == self.target
        &&& exists|offspring: Seq<Seq<char>>|
            {
                &&& #[trigger] is_ranking_of(
                    self.target,
                    self.survivors() + offspring,
                    next.genomes,
                )
                &&& offspring.len() == self.genomes.len() - self.survivor_count()
                &&& forall|k: int|
                    0 <= k < offspring.len() ==> is_genome(
                        #[trigger] offspring[k],
                        self.target.len(),
                    )
            }
    }
}

impl View for Population {
    type V = PopulationView;

    closed spec fn view(&self) -> PopulationView {
        PopulationView { target: self.target@, genomes: texts(self.genomes@) }
    }
}

/// Copies of the first `count` genomes, or of all where there are fewer.
fn leading(genomes: &Vec<String>, count: usize) -> (copies: Vec<String>)
    ensures
        copies@ == genomes@.take(
            if count <= genomes.len() {
                count as int
            } else {
                genomes.len() as int
            },
        ),
{
    let mut copies: Vec<String> = Vec::new();
    let mut i: usize = 0;
    while i < count && i < genomes.len()
        invariant
            i <= genomes.len(),
            i <= count,
            copies@ == genomes@.take(i as int),
        decreases genomes.len() - i,
    {
        copies.push(genomes[i].clone());
        i += 1;
    }
    copies
}

impl Population {
    #[verifier::type_invariant]
    spec fn inv(&self) -> bool {
        &&& self.population_size == self.genomes@.len()
        &&& self.genome_size == self.target@.len()
        &&& self@.well_formed()
        &&& self@.ranked()
    }

    /// Creates a population of `population_size` random genomes as long as
    /// `target`, ranked against it.
    pub fn new(target: String, population_size: usize) -> (population: Population)
        ensures
            population@.target == target@,
            population@.genomes.len() == population_size,
            population@.well_formed(),
            population@.ranked(),
    {
        let genome_size: usize = target.as_str().unicode_len();
        let mut genomes: Vec<String> = Vec::new();
        while genomes.len() < population_size
            invariant
                genomes.len() <= population_size,
                forall|i: int|
                    0 <= i < genomes.len() ==> is_genome(
                        #[trigger] texts(genomes@)[i],
                        genome_size as nat,
                    ),
            decreases population_size - genomes.len(),
        {
            let ghost made = texts(genomes@);
            let genome = Self::random_genome(genome_size);
            genomes.push(genome);
            assert(texts(genomes@) =~= made.push(genome@));
        }
        let ghost unranked = texts(genomes@);
        rank(&target, &mut genomes);
        proof {
            lemma_same_members(unranked, texts(genomes@));
        }
        Population { population_size, genome_size, target, genomes }
    }

    /// A genome of `genome_size` symbols, each drawn from the whole alphabet.
    pub fn random_genome(genome_size: usize) -> (genome: String)
        ensures
            is_genome(genome@, genome_size as nat),
    {
        let mut rng = rand::thread_rng();
        let mut genome = String::new();
        let mut drawn: usize = 0;
        while drawn < genome_size
            invariant
                drawn <= genome_size,
                is_genome(genome@, drawn as nat),
            decreases genome_size - drawn,
        {
            let picked = sample_positions(&mut rng, SYMBOL_COUNT, 1);
            if let Some(symbol) = symbol_at(picked[0]) {
                genome.push(symbol);
            }
            drawn += 1;
        }
        genome
    }

    /// Counts the positions at which `genome` agrees with `target`. Where the
    /// lengths differ, only the positions both have are compared.
    pub fn fitness(target: &String, genome: &String) -> (score: usize)
        ensures
            score == fitness_of(target@, genome@),
            score <= target@.len(),
            genome@.len() == target@.len() ==> (score == target@.len() <==> genome@ == target@),
    {
        proof {
            lemma_fitness_bounded(target@, genome@);
            if genome@.len() == target@.len() {
                lemma_fitness_full_iff_equal(target@, genome@);
            }
        }
        crate::genome::fitness(target.as_str(), genome.as_str())
    }

    /// Crosses two parents. On 35 rolls in 100 the child is a fresh random
    /// genome; otherwise it takes each position from one parent or the other,
    /// as a coin decides.
    pub fn crossover(&self, mother: &String, father: &String) -> (child: String)
        ensures
            is_genome(child@, self@.target.len()) || inherits(child@, mother@, father@),
            is_genome(mother@, self@.target.len()) && is_genome(father@, self@.target.len())
                ==> is_genome(child@, self@.target.len()),
    {
        proof {
            use_type_invariant(self);
        }
        let mut rng = rand::thread_rng();
        let roll: u32 = draw_between(&mut rng, 0, ROLL_BOUND);
        if reinitializes(roll) {
            Self::random_genome(self.genome_size)
        } else {
            let mother_size: usize = mother.as_str().unicode_len();
            let father_size: usize = father.as_str().unicode_len();
            let shared: usize = if mother_size <= father_size {
                mother_size
            } else {
                father_size
            };
            let mut from_mother: Vec<bool> = Vec::new();
            while from_mother.len() < shared
                invariant
                    from_mother.len() <= shared,
                decreases shared - from_mother.len(),
            {
                let heads = toss(&mut rng);
                from_mother.push(heads);
            }
            let child = recombine(mother.as_str(), father.as_str(), &from_mother);
            proof {
                lemma_recombined_inherits(mother@, father@, from_mother@);
                if is_genome(mother@, self@.target.len()) && is_genome(
                    father@,
                    self@.target.len(),
                ) {
                    lemma_heir_is_genome(child@, mother@, father@, self@.target.len());
                }
            }
            child
        }
    }

    /// Restores the ranking: most fit first. Every genome is kept.
    pub fn sort_genomes(&mut self)
        ensures
            final(self)@.ranked(),
            final(self)@.well_formed(),
            final(self)@ == old(self)@,
    {
        proof {
            use_type_invariant(&*self);
        }
        let mut genomes = leading(&self.genomes, self.population_size);
        assert(texts(genomes@) == texts(self.genomes@));
        rank(&self.target, &mut genomes);
        self.genomes = genomes;
    }

    /// The fittest genome, or `EmptyPopulation` where there is none.
    pub fn most_fit(&self) -> (best: Result<String, PopulationError>)
        ensures
            match best {
                Ok(genome) => {
                    &&& self@.genomes.len() > 0
                    &&& genome@ == self@.genomes[0]
                    &&& forall|i: int|
                        0 <= i < self@.genomes.len() ==> fitness_of(
                            self@.target,
                            #[trigger] self@.genomes[i],
                        ) <= fitness_of(self@.target, genome@)
                },
                Err(reason) => reason == PopulationError::EmptyPopulation && self@.genomes.len()
                    == 0,
            },
    {
        proof {
            use_type_invariant(self);
        }
        if self.genomes.len() == 0 {
            Err(PopulationError::EmptyPopulation)
        } else {
            proof {
                lemma_first_is_fittest(self@.target, self@.genomes);
            }
            Ok(self.genomes[0].clone())
        }
    }

    /// Replaces the population by its next generation.
    ///
    /// The leading half survives unchanged. The rest is refilled with
    /// children of survivors: of two distinct survivors each, or, when a
    /// meteor strikes the generation, of one survivor and a fresh random
    /// genome. The result is ranked again.
    ///
    /// A population of one to three genomes has fewer than two survivors and
    /// is refused with `TooFewSurvivors`, unchanged. An empty population has
    /// nothing to refill and stays as it is.
    pub fn next_generation(&mut self) -> (outcome: Result<(), PopulationError>)
        ensures
            final(self)@.target == old(self)@.target,
            final(self)@.genomes.len() == old(self)@.genomes.len(),
            final(self)@.well_formed(),
            final(self)@.ranked(),
            match outcome {
                Ok(_) => {
                    &&& old(self)@.can_breed()
                    &&& old(self)@.breeds(final(self)@)
                    &&& old(self)@.survivors().to_multiset().subset_of(
                        final(self)@.genomes.to_multiset(),
                    )
                },
                Err(reason) => {
                    &&& reason == PopulationError::TooFewSurvivors
                    &&& !old(self)@.can_breed()
                    &&& final(self)@ == old(self)@
                },
            },
    {
        proof {
            use_type_invariant(&*self);
        }
        let survivor_count: usize = self.population_size / 2;
        if self.population_size > 0 && survivor_count < 2 {
            return Err(PopulationError::TooFewSurvivors);
        }
        let ghost survivors = self@.survivors();
        let mut genomes = leading(&self.genomes, survivor_count);
        assert(texts(genomes@) == survivors);
        let mut rng = rand::thread_rng();
        let roll: u32 = draw_between(&mut rng, 0, ROLL_BOUND);
        let meteor = meteor_strikes(roll);
        while genomes.len() < self.population_size
            invariant
                survivor_count == self.population_size / 2,
                self.population_size == 0 || survivor_count >= 2,
                self.genome_size == self@.target.len(),
                survivor_count <= genomes.len() <= self.population_size,
                texts(genomes@).take(survivor_count as int) == survivors,
                forall|i: int|
                    0 <= i < genomes.len() ==> is_genome(
                        #[trigger] texts(genomes@)[i],
                        self@.target.len(),
                    ),
            decreases self.population_size - genomes.len(),
        {
            let ghost bred = texts(genomes@);
            let child = if meteor {
                let picked = sample_positions(&mut rng, survivor_count, 1);
                let fresh = Self::random_genome(self.genome_size);
                assert(texts(genomes@)[picked[0] as int] == genomes[picked[0] as int]@);
                self.crossover(&genomes[picked[0]], &fresh)
            } else {
                let picked = sample_positions(&mut rng, survivor_count, 2);
                assert(picked[0] != picked[1]);
                assert(texts(genomes@)[picked[0] as int] == genomes[picked[0] as int]@);
                assert(texts(genomes@)[picked[1] as int] == genomes[picked[1] as int]@);
                self.crossover(&genomes[picked[0]], &genomes[picked[1]])
            };
            genomes.push(child);
            assert(texts(genomes@) =~= bred.push(child@));
            assert(texts(genomes@).take(survivor_count as int) =~= bred.take(
                survivor_count as int,
            ));
        }
        let ghost unranked = texts(genomes@);
        rank(&self.target, &mut genomes);
        proof {
            lemma_same_members(unranked, texts(genomes@));
            lemma_leading_part_is_included(unranked, survivor_count as int);
            let offspring = unranked.skip(survivor_count as int);
            assert(unranked =~= survivors + offspring);
            assert(is_ranking_of(self@.target, survivors + offspring, texts(genomes@)));
        }
        self.genomes = genomes;
        Ok(())
    }

    /// Whether some genome is the target.
    pub fn contains_target(&self) -> (found: bool)
        ensures
            found == self@.solved(),
    {
        proof {
            use_type_invariant(self);
        }
        if self.genomes.len() == 0 {
            false
        } else {
            let found = self.genomes[0] == self.target;
            proof {
                assert(self@.genomes[0] == self.genomes[0]@);
                lemma_solved_iff_first_is_target(self@);
            }
            found
        }
    }

    /// The target the population evolves towards.
    pub fn target(&self) -> (target: &String)
        ensures
            target@ == self@.target,
    {
        &self.target
    }

    /// The genomes, most fit first.
    pub fn genomes(&self) -> (genomes: &Vec<String>)
        ensures
            texts(genomes@) == self@.genomes,
            self@.well_formed(),
            self@.ranked(),
    {
        proof {
            use_type_invariant(self);
        }
        &self.genomes
    }

    /// Number of genomes in the population.
    pub fn population_size(&self) -> (size: usize)
        ensures
            size == self@.genomes.len(),
    {
        proof {
            use_type_invariant(self);
        }
        self.population_size
    }

    /// Number of symbols in the target, and so in every genome.
    pub fn genome_size(&self) -> (size: usize)
        ensures
            size == self@.target.len(),
    {
        proof {
            use_type_invariant(self);
        }
        self.genome_size
    }
}

/// The leading part of a list is included in the whole, member for member.
pub proof fn lemma_leading_part_is_included(genomes: Seq<Seq<char>>, count: int)
    requires
        0 <= count <= genomes.len(),
    ensures
        genomes.take(count).to_multiset().subset_of(genomes.to_multiset()),
{
    assert(genomes =~= genomes.take(count) + genomes.skip(count));
    vstd::seq_lib::lemma_multiset_commutative(genomes.take(count), genomes.skip(count));
}

/// A generation bred from another has its size, is ranked, holds well-formed
/// genomes where the one before did, and holds every survivor of the one
/// before.
pub proof fn lemma_breeding_keeps_size_and_survivors(before: PopulationView, after: PopulationView)
    requires
        before.breeds(after),
    ensures
        after.genomes.len() == before.genomes.len(),
        after.ranked(),
        before.well_formed() ==> after.well_formed(),
        before.survivors().to_multiset().subset_of(after.genomes.to_multiset()),
{
    let offspring = choose|offspring: Seq<Seq<char>>|
        {
            &&& #[trigger] is_ranking_of(
                before.target,
                before.survivors() + offspring,
                after.genomes,
            )
            &&& offspring.len() == before.genomes.len() - before.survivor_count()
            &&& forall|k: int|
                0 <= k < offspring.len() ==> is_genome(
                    #[trigger] offspring[k],
                    before.target.len(),
                )
        };
    let unranked = before.survivors() + offspring;
    lemma_same_members(unranked, after.genomes);
    lemma_leading_part_is_included(unranked, before.survivor_count() as int);
    assert(unranked.take(before.survivor_count() as int) =~= before.survivors());
    if before.well_formed() {
        assert forall|i: int| 0 <= i < after.genomes.len() implies is_genome(
            #[trigger] after.genomes[i],
            after.target.len(),
        ) by {
            let at = choose|k: int| 0 <= k < unranked.len() && unranked[k] == after.genomes[i];
            if at < before.survivor_count() {
                assert(unranked[at] == before.genomes[at]);
            } else {
                assert(unranked[at] == offspring[at - before.survivor_count()]);
            }
        }
    }
}

/// In a ranked population of genomes as long as the target, the target is
/// among the genomes exactly when it stands first, which is exactly when the
/// first genome's fitness is the target's length.
pub proof fn lemma_solved_iff_first_is_target(population: PopulationView)
    requires
        population.well_formed(),
        population.ranked(),
        population.genomes.len() > 0,
    ensures
        population.solved() <==> population.genomes[0] == population.target,
        population.solved() <==> fitness_of(population.target, population.genomes[0])
            == population.target.len(),
{
    let target = population.target;
    let first = population.genomes[0];
    lemma_fitness_full_iff_equal(target, first);
    if population.solved() {
        let at = choose|i: int| 0 <= i < population.genomes.len() && population.genomes[i] == target;
        lemma_fitness_of_self(target);
        lemma_fitness_bounded(target, first);
        assert(fitness_of(target, first) >= fitness_of(target, population.genomes[at]));
    }
    if first == target {
        assert(population.genomes.contains(target));
    }
}

/// With an empty target every genome is empty, so any population that holds
/// a genome already holds the target.
pub proof fn lemma_empty_target_is_solved(population: PopulationView)
    requires
        population.well_formed(),
        population.target.len() == 0,
        population.genomes.len() > 0,
    ensures
        population.solved(),
{
    assert(population.genomes[0] =~= population.target);
}

} // verus!
