use genome_search::{Population, PopulationError, DEFAULT_POPULATION_SIZE};

fn is_symbol(c: char) -> bool {
    ' ' <= c && c <= '~'
}

fn fitnesses(population: &Population) -> Vec<usize> {
    population
        .genomes()
        .iter()
        .map(|genome| Population::fitness(population.target(), genome))
        .collect()
}

fn is_ranked(population: &Population) -> bool {
    fitnesses(population).windows(2).all(|pair| pair[0] >= pair[1])
}

fn is_well_formed(population: &Population) -> bool {
    let size = population.target().chars().count();
    population
        .genomes()
        .iter()
        .all(|genome| genome.chars().count() == size && genome.chars().all(is_symbol))
}

fn remove_one(pool: &mut Vec<String>, wanted: &String) -> bool {
    match pool.iter().position(|genome| genome == wanted) {
        Some(at) => {
            pool.remove(at);
            true
        }
        None => false,
    }
}

#[test]
fn new_holds_the_asked_number_of_genomes() {
    for size in [0, 1, 2, 3, 4, 7, 100] {
        let population = Population::new(String::from("TARGET"), size);
        assert_eq!(population.population_size(), size);
        assert_eq!(population.genomes().len(), size);
    }
}

#[test]
fn new_keeps_the_target() {
    let population = Population::new(String::from("Hello, World!"), 10);
    assert_eq!(population.target(), "Hello, World!");
    assert_eq!(population.genome_size(), 13);
}

#[test]
fn new_makes_genomes_of_the_target_length_from_the_alphabet() {
    let population = Population::new(String::from("METHINKS IT IS LIKE A WEASEL"), 50);
    assert_eq!(population.genome_size(), 28);
    for genome in population.genomes() {
        assert_eq!(genome.chars().count(), 28);
        assert!(genome.chars().all(is_symbol));
    }
}

#[test]
fn new_ranks_its_genomes() {
    for _ in 0..20 {
        let population = Population::new(String::from("ABCDEFGHIJKLMNOPQRSTUVWXYZ"), 64);
        assert!(is_ranked(&population));
    }
}

#[test]
fn new_measures_the_target_in_characters() {
    let population = Population::new(String::from("héllo"), 8);
    assert_eq!(population.genome_size(), 5);
    assert!(is_well_formed(&population));
}

#[test]
fn default_population_size_is_one_hundred() {
    assert_eq!(DEFAULT_POPULATION_SIZE, 100);
}

#[test]
fn random_genome_has_the_asked_length() {
    for size in [0, 1, 2, 10, 95, 500] {
        assert_eq!(Population::random_genome(size).chars().count(), size);
    }
}

#[test]
fn random_genome_holds_alphabet_symbols_only() {
    let genome = Population::random_genome(5000);
    assert!(genome.chars().all(is_symbol));
}

#[test]
fn random_genome_reaches_the_whole_alphabet() {
    let genome = Population::random_genome(20000);
    for code in 0x20u8..=0x7E {
        assert!(genome.contains(code as char));
    }
}

#[test]
fn random_genome_of_size_zero_is_empty() {
    assert_eq!(Population::random_genome(0), "");
}

#[test]
fn crossover_gives_a_genome_of_the_target_length() {
    let population = Population::new(String::from("ABCDEFGH"), 4);
    let mother = String::from("AAAAAAAA");
    let father = String::from("BBBBBBBB");
    for _ in 0..200 {
        let child = population.crossover(&mother, &father);
        assert_eq!(child.chars().count(), 8);
        assert!(child.chars().all(is_symbol));
    }
}

#[test]
fn crossover_inherits_or_starts_afresh() {
    let population = Population::new(String::from("ABCDEFGHIJKLMNOPQRST"), 4);
    let mother = String::from("AAAAAAAAAAAAAAAAAAAA");
    let father = String::from("BBBBBBBBBBBBBBBBBBBB");
    let mut inherited = 0;
    let mut fresh = 0;
    for _ in 0..400 {
        let child = population.crossover(&mother, &father);
        if child.chars().all(|c| c == 'A' || c == 'B') {
            inherited += 1;
        } else {
            assert_eq!(child.chars().count(), 20);
            assert!(child.chars().all(is_symbol));
            fresh += 1;
        }
    }
    assert!(inherited > 0);
    assert!(fresh > 0);
}

#[test]
fn crossover_mixes_both_parents() {
    let population = Population::new(String::from("ABCDEFGHIJKLMNOPQRSTUVWXYZABCDEF"), 4);
    let mother = String::from("AAAAAAAAAAAAAAAAAAAAAAAAAAAAAAAA");
    let father = String::from("BBBBBBBBBBBBBBBBBBBBBBBBBBBBBBBB");
    let mut from_mother = false;
    let mut from_father = false;
    for _ in 0..200 {
        let child = population.crossover(&mother, &father);
        if child.chars().all(|c| c == 'A' || c == 'B') {
            from_mother = from_mother || child.contains('A');
            from_father = from_father || child.contains('B');
        }
    }
    assert!(from_mother);
    assert!(from_father);
}

#[test]
fn sort_genomes_keeps_the_ranking_and_the_genomes() {
    let mut population = Population::new(String::from("SORT ME"), 40);
    let before = population.genomes().clone();
    population.sort_genomes();
    assert!(is_ranked(&population));
    assert_eq!(population.genomes(), &before);
    assert_eq!(population.target(), "SORT ME");
}

#[test]
fn sort_genomes_leaves_neighbours_ordered() {
    let mut population = Population::new(String::from("NEIGHBOURS"), 100);
    population.sort_genomes();
    let scores = fitnesses(&population);
    for i in 0..scores.len() - 1 {
        assert!(scores[i] >= scores[i + 1]);
    }
}

#[test]
fn most_fit_is_the_first_genome() {
    let population = Population::new(String::from("FITTEST"), 30);
    let best = population.most_fit();
    assert_eq!(best, Ok(population.genomes()[0].clone()));
}

#[test]
fn most_fit_is_at_least_as_fit_as_every_genome() {
    let population = Population::new(String::from("FITTEST"), 30);
    let target = population.target().clone();
    match population.most_fit() {
        Ok(best) => {
            let top = Population::fitness(&target, &best);
            for genome in population.genomes() {
                assert!(Population::fitness(&target, genome) <= top);
            }
        }
        Err(reason) => panic!("no fittest genome: {:?}", reason),
    }
}

#[test]
fn most_fit_of_an_empty_population_is_refused() {
    let population = Population::new(String::from("NOBODY"), 0);
    assert_eq!(population.most_fit(), Err(PopulationError::EmptyPopulation));
}

#[test]
fn next_generation_keeps_the_size_and_the_ranking() {
    let mut population = Population::new(String::from("GENERATIONS"), 100);
    for _ in 0..30 {
        assert_eq!(population.next_generation(), Ok(()));
        assert_eq!(population.population_size(), 100);
        assert_eq!(population.genomes().len(), 100);
        assert!(is_ranked(&population));
        assert!(is_well_formed(&population));
        assert_eq!(population.target(), "GENERATIONS");
    }
}

#[test]
fn next_generation_keeps_the_leading_half() {
    let mut population = Population::new(String::from("ELITISM"), 41);
    for _ in 0..30 {
        let survivors: Vec<String> = population.genomes()[..20].to_vec();
        assert_eq!(population.next_generation(), Ok(()));
        let mut pool = population.genomes().clone();
        for survivor in &survivors {
            assert!(remove_one(&mut pool, survivor));
        }
        assert_eq!(pool.len(), 21);
    }
}

#[test]
fn next_generation_never_lowers_the_best_fitness() {
    let mut population = Population::new(String::from("MONOTONE CLIMB"), 60);
    let mut best = fitnesses(&population)[0];
    for _ in 0..40 {
        assert_eq!(population.next_generation(), Ok(()));
        let now = fitnesses(&population)[0];
        assert!(now >= best);
        best = now;
    }
}

#[test]
fn next_generation_works_with_four_genomes() {
    let mut population = Population::new(String::from("FOUR"), 4);
    for _ in 0..50 {
        let survivors: Vec<String> = population.genomes()[..2].to_vec();
        assert_eq!(population.next_generation(), Ok(()));
        assert_eq!(population.genomes().len(), 4);
        assert!(is_ranked(&population));
        let mut pool = population.genomes().clone();
        for survivor in &survivors {
            assert!(remove_one(&mut pool, survivor));
        }
    }
}

#[test]
fn next_generation_of_a_single_genome_is_refused() {
    let mut population = Population::new(String::from("ALONE"), 1);
    let before = population.genomes().clone();
    assert_eq!(population.next_generation(), Err(PopulationError::TooFewSurvivors));
    assert_eq!(population.genomes(), &before);
    assert_eq!(population.population_size(), 1);
}

#[test]
fn next_generation_with_one_survivor_is_refused() {
    for size in [2, 3] {
        let mut population = Population::new(String::from("PAIR"), size);
        let before = population.genomes().clone();
        for _ in 0..20 {
            assert_eq!(population.next_generation(), Err(PopulationError::TooFewSurvivors));
            assert_eq!(population.genomes(), &before);
        }
    }
}

#[test]
fn next_generation_of_an_empty_population_changes_nothing() {
    let mut population = Population::new(String::from("NOBODY"), 0);
    assert_eq!(population.next_generation(), Ok(()));
    assert_eq!(population.population_size(), 0);
    assert!(population.genomes().is_empty());
    assert!(!population.contains_target());
}

#[test]
fn contains_target_agrees_with_a_search_of_the_genomes() {
    let mut population = Population::new(String::from("AB"), 100);
    for _ in 0..50 {
        let expected = population.genomes().contains(population.target());
        assert_eq!(population.contains_target(), expected);
        assert_eq!(population.next_generation(), Ok(()));
    }
}

#[test]
fn contains_target_means_the_fittest_is_the_target() {
    let mut population = Population::new(String::from("OK"), 100);
    let mut generations = 0;
    while !population.contains_target() {
        assert!(generations < 5000);
        assert_eq!(population.next_generation(), Ok(()));
        generations += 1;
    }
    assert_eq!(population.most_fit(), Ok(String::from("OK")));
    assert_eq!(fitnesses(&population)[0], 2);
}

#[test]
fn search_for_a_two_letter_target_finds_it() {
    let mut population = Population::new(String::from("AB"), 100);
    let mut generations = 0;
    while !population.contains_target() {
        assert!(generations < 5000, "no match after {} generations", generations);
        assert!(population.most_fit().is_ok());
        assert_eq!(population.next_generation(), Ok(()));
        generations += 1;
    }
    assert!(population.genomes().contains(&String::from("AB")));
    assert_eq!(population.most_fit(), Ok(String::from("AB")));
}

#[test]
fn search_for_a_word_finds_it() {
    let mut population = Population::new(String::from("Hello"), DEFAULT_POPULATION_SIZE);
    let mut generations = 0;
    while !population.contains_target() {
        assert!(generations < 20000, "no match after {} generations", generations);
        assert_eq!(population.next_generation(), Ok(()));
        generations += 1;
    }
    assert_eq!(population.most_fit(), Ok(String::from("Hello")));
}

#[test]
fn search_for_the_empty_target_ends_at_once() {
    let population = Population::new(String::new(), 100);
    assert_eq!(population.genome_size(), 0);
    for genome in population.genomes() {
        assert_eq!(genome, "");
    }
    assert!(population.contains_target());
    assert_eq!(population.most_fit(), Ok(String::new()));
}

#[test]
fn empty_target_survives_generations() {
    let mut population = Population::new(String::new(), 10);
    assert_eq!(population.next_generation(), Ok(()));
    assert_eq!(population.genomes().len(), 10);
    assert!(population.contains_target());
    assert!(population.genomes().iter().all(|genome| genome.is_empty()));
}

#[test]
fn target_outside_the_alphabet_is_never_reached_but_search_goes_on() {
    let mut population = Population::new(String::from("é"), 20);
    for _ in 0..20 {
        assert!(!population.contains_target());
        assert_eq!(population.next_generation(), Ok(()));
        assert!(is_well_formed(&population));
    }
}
