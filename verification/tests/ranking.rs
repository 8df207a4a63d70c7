use genome_search::ranking::rank;
use genome_search::Population;

fn strings(items: &[&str]) -> Vec<String> {
    items.iter().map(|s| String::from(*s)).collect()
}

fn scores(target: &String, genomes: &Vec<String>) -> Vec<usize> {
    genomes.iter().map(|g| Population::fitness(target, g)).collect()
}

#[test]
fn rank_puts_the_fittest_first() {
    let target = String::from("ABCD");
    let mut genomes = strings(&["xxxx", "ABxx", "ABCD", "Axxx", "ABCx"]);
    rank(&target, &mut genomes);
    assert_eq!(genomes, strings(&["ABCD", "ABCx", "ABxx", "Axxx", "xxxx"]));
    assert_eq!(scores(&target, &genomes), vec![4, 3, 2, 1, 0]);
}

#[test]
fn rank_orders_every_neighbouring_pair() {
    let target = String::from("GENOME");
    let mut genomes = strings(&[
        "GxNxMx", "xxxxxx", "GENOME", "GENxxx", "xENOME", "Gxxxxx", "GENOMx", "xxxxxE", "GENOME",
    ]);
    rank(&target, &mut genomes);
    let ranked = scores(&target, &genomes);
    for pair in ranked.windows(2) {
        assert!(pair[0] >= pair[1]);
    }
    assert_eq!(ranked, vec![6, 6, 5, 5, 3, 3, 1, 1, 0]);
}

#[test]
fn rank_keeps_every_genome() {
    let target = String::from("ABC");
    let unranked = strings(&["xBx", "ABC", "xxx", "xBx", "AxC", "xxx", "xxx"]);
    let mut genomes = unranked.clone();
    rank(&target, &mut genomes);
    assert_eq!(genomes.len(), unranked.len());
    let mut before = unranked.clone();
    let mut after = genomes.clone();
    before.sort();
    after.sort();
    assert_eq!(before, after);
}

#[test]
fn rank_leaves_equally_fit_genomes_in_their_order() {
    let target = String::from("AB");
    let mut genomes = strings(&["Ax", "xB", "xx", "Ay", "yB", "AB", "yy"]);
    rank(&target, &mut genomes);
    assert_eq!(genomes, strings(&["AB", "Ax", "xB", "Ay", "yB", "xx", "yy"]));
}

#[test]
fn rank_leaves_a_ranked_list_alone() {
    let target = String::from("ABCD");
    let ranked = strings(&["ABCD", "ABCx", "xBCD", "ABxx", "xxxx", "yyyy"]);
    let mut genomes = ranked.clone();
    rank(&target, &mut genomes);
    assert_eq!(genomes, ranked);
}

#[test]
fn rank_twice_is_rank_once() {
    let target = String::from("HELLO");
    let mut once = strings(&["xxxxx", "HELLO", "HxLxO", "HELLx", "xELLO", "Hxxxx"]);
    rank(&target, &mut once);
    let mut twice = once.clone();
    rank(&target, &mut twice);
    assert_eq!(once, twice);
}

#[test]
fn rank_reverses_an_ascending_list() {
    let target = String::from("AAAA");
    let mut genomes = strings(&["xxxx", "Axxx", "AAxx", "AAAx", "AAAA"]);
    rank(&target, &mut genomes);
    assert_eq!(genomes, strings(&["AAAA", "AAAx", "AAxx", "Axxx", "xxxx"]));
}

#[test]
fn rank_of_nothing_is_nothing() {
    let target = String::from("ABC");
    let mut genomes: Vec<String> = Vec::new();
    rank(&target, &mut genomes);
    assert!(genomes.is_empty());
}

#[test]
fn rank_of_one_genome_is_that_genome() {
    let target = String::from("ABC");
    let mut genomes = strings(&["xyz"]);
    rank(&target, &mut genomes);
    assert_eq!(genomes, strings(&["xyz"]));
}

#[test]
fn rank_accepts_genomes_of_other_lengths() {
    let target = String::from("ABCD");
    let mut genomes = strings(&["A", "ABCDEFG", "", "ABC"]);
    rank(&target, &mut genomes);
    assert_eq!(genomes, strings(&["ABCDEFG", "ABC", "A", ""]));
}
