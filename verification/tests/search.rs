use mcmc_decrypt::message::CipherKey;
use mcmc_decrypt::search::{Candidate, Phase, Search};
use rand::SeedableRng;
use rand_pcg::Mcg128Xsl64;

fn key(seed: u64) -> CipherKey {
    CipherKey::new("abc", Mcg128Xsl64::seed_from_u64(seed)).unwrap()
}

#[test]
fn evaluate_deciphers_and_models() {
    let baseline = Candidate::evaluate(key(0), "aabbcc");
    assert_eq!(baseline.plain, "aaccbb");
    assert_eq!(baseline.stats.own_frequency(), 7);
    assert_eq!(baseline.stats.frequency(&'c'), 2);
    assert_eq!(baseline.key.images(), vec!['a', 'c', 'b']);
}

#[test]
fn search_starts_from_the_baseline() {
    let baseline = Candidate::evaluate(key(0), "aabbcc");
    let search = Search::start(baseline, 17, 3);
    assert_eq!(search.iteration(), 0);
    assert_eq!(search.score(), 17);
    assert_eq!(search.plain(), "aaccbb");
    assert_eq!(search.key().images(), vec!['a', 'c', 'b']);
    assert_eq!(search.phase(), Phase::Exploring);
    assert!(!search.is_terminated());
}

#[test]
fn proposal_is_a_neighbour_of_the_best_key() {
    let baseline = Candidate::evaluate(key(0), "aabbcc");
    let search = Search::start(baseline, 17, 3);
    let candidate = search.propose("aabbcc");
    assert_eq!(candidate.key.images(), vec!['c', 'a', 'b']);
    assert_eq!(candidate.plain, "ccaabb");
    assert_eq!(candidate.stats.own_frequency(), 7);
    assert_eq!(candidate.stats.child(&'c').unwrap().frequency(&'a'), 1);
    assert_eq!(search.key().images(), vec!['a', 'c', 'b']);
    assert_eq!(search.plain(), "aaccbb");
}

#[test]
fn lower_score_is_accepted() {
    let baseline = Candidate::evaluate(key(0), "aabbcc");
    let mut search = Search::start(baseline, 17, 3);
    let candidate = search.propose("aabbcc");
    assert!(search.decide(candidate, 16));
    assert_eq!(search.score(), 16);
    assert_eq!(search.plain(), "ccaabb");
    assert_eq!(search.key().images(), vec!['c', 'a', 'b']);
    assert_eq!(search.iteration(), 1);
}

#[test]
fn equal_or_higher_score_is_rejected() {
    let baseline = Candidate::evaluate(key(0), "aabbcc");
    let mut search = Search::start(baseline, 17, 3);
    let candidate = search.propose("aabbcc");
    assert!(!search.decide(candidate, 17));
    assert_eq!(search.score(), 17);
    assert_eq!(search.plain(), "aaccbb");
    assert_eq!(search.key().images(), vec!['a', 'c', 'b']);
    assert_eq!(search.iteration(), 1);
    let candidate = search.propose("aabbcc");
    assert!(!search.decide(candidate, 18));
    assert_eq!(search.score(), 17);
    assert_eq!(search.plain(), "aaccbb");
    assert_eq!(search.iteration(), 2);
}

#[test]
fn search_ends_when_the_budget_is_used_up() {
    let baseline = Candidate::evaluate(key(1), "abc");
    let mut search = Search::start(baseline, 100, 4);
    let mut steps = 0;
    let mut score = 100;
    while !search.is_terminated() {
        let candidate = search.propose("abc");
        score -= 1;
        assert!(search.decide(candidate, score));
        steps += 1;
    }
    assert_eq!(steps, 4);
    assert_eq!(search.iteration(), 4);
    assert_eq!(search.score(), 96);
    assert_eq!(search.phase(), Phase::Terminated);
}

#[test]
fn empty_budget_is_terminated_at_once() {
    let baseline = Candidate::evaluate(key(1), "abc");
    let search = Search::start(baseline, 5, 0);
    assert!(search.is_terminated());
    assert_eq!(search.phase(), Phase::Terminated);
    assert_eq!(search.iteration(), 0);
}

#[test]
fn rejection_leaves_the_search_as_it_was() {
    let baseline = Candidate::evaluate(key(2), "abcabc");
    let mut search = Search::start(baseline, 9, 5);
    let images = search.key().images();
    let first = search.propose("abcabc");
    let first_images = first.key.images();
    assert!(!search.decide(first, 9));
    assert_eq!(search.key().images(), images);
    let second = search.propose("abcabc");
    assert_eq!(second.key.images(), first_images);
    assert_eq!(second.key.alphabet(), vec!['a', 'b', 'c']);
}

#[test]
fn accepted_key_is_the_start_of_the_next_proposal() {
    let baseline = Candidate::evaluate(key(0), "aabbcc");
    let mut search = Search::start(baseline, 9, 5);
    let first = search.propose("aabbcc");
    let mut expected = first.key.clone();
    assert!(search.decide(first, 8));
    expected.perturb();
    let second = search.propose("aabbcc");
    assert_eq!(second.key.images(), expected.images());
    assert_eq!(second.plain, expected.decipher("aabbcc"));
}
