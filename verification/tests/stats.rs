use mcmc_decrypt::stats::{CorpusStats, Ratio, CHAR_DEFAULT};

fn value(ratio: Ratio) -> f64 {
    ratio.num as f64 / ratio.den as f64
}

fn diff(own: &CorpusStats, other: &CorpusStats) -> f64 {
    let mut total = 0.0;
    for term in own.diff_terms(other) {
        total += (value(term.own) - value(term.other)).abs().powi(2) * term.weight as f64;
    }
    total
}

#[test]
fn stats_test_corpus_stats() {
    let mut stats = CorpusStats::new();
    stats.read("stats").finish();

    // test frequencies
    assert_eq!(stats.own_frequency(), 6);
    assert_eq!(stats.child(&'t').unwrap().own_frequency(), 2);
    assert_eq!(
        stats
            .child(&'t')
            .unwrap()
            .child(&'a')
            .unwrap()
            .own_frequency(),
        1
    );
    assert!(stats.child(&'z').is_none());

    // test ratios
    assert_eq!(value(stats.own_ratio()), 0.0);
    assert_eq!(value(stats.child(&'t').unwrap().own_ratio()), 1.0 / 3.0);
    assert_eq!(
        value(stats.child(&'t').unwrap().child(&'a').unwrap().own_ratio()),
        0.5
    );
    assert!(stats.child(&'z').is_none());
}

#[test]
fn lib_test_corpus_stats() {
    let mut stats = CorpusStats::new();
    stats.read("stats").finish();
    assert_eq!(stats.child(&'t').unwrap().own_frequency(), 2);
    assert!(stats.child(&'z').is_none());
    assert_eq!(
        stats
            .child(&'t')
            .unwrap()
            .child(&'a')
            .unwrap()
            .own_frequency(),
        1
    );
    assert!(stats.child(&'t').unwrap().child(&'t').is_none());
}

#[test]
fn new_model_is_empty() {
    let stats = CorpusStats::new();
    assert_eq!(stats.own_frequency(), 0);
    assert_eq!(stats.own_ratio(), Ratio { num: 0, den: 1 });
    assert!(stats.copy_symbol_keys().is_empty());
    assert_eq!(stats.frequency(&'a'), 0);
    assert_eq!(stats.ratio(&'a'), Ratio { num: 0, den: 1 });
}

#[test]
fn empty_text_records_one_boundary_transition() {
    let mut stats = CorpusStats::new();
    stats.read("").finish();
    assert_eq!(stats.own_frequency(), 1);
    assert_eq!(stats.copy_symbol_keys(), vec![' ']);
    let context = stats.child(&' ').unwrap();
    assert_eq!(context.own_frequency(), 1);
    assert_eq!(context.own_ratio(), Ratio { num: 1, den: 1 });
    assert_eq!(value(context.own_ratio()), 1.0);
    assert_eq!(context.copy_symbol_keys(), vec![' ']);
    let successor = context.child(&' ').unwrap();
    assert_eq!(successor.own_frequency(), 1);
    assert_eq!(successor.own_ratio(), Ratio { num: 1, den: 1 });
    assert_eq!(value(successor.own_ratio()), 1.0);
    assert!(successor.copy_symbol_keys().is_empty());
}

#[test]
fn stats_counts_every_transition_once() {
    let mut stats = CorpusStats::new();
    stats.read("stats").finish();
    // transitions: ( ,s) (s,t) (t,a) (a,t) (t,s) (s, )
    assert_eq!(stats.copy_symbol_keys(), vec![' ', 's', 't', 'a']);
    assert_eq!(stats.frequency(&' '), 1);
    assert_eq!(stats.frequency(&'s'), 2);
    assert_eq!(stats.frequency(&'t'), 2);
    assert_eq!(stats.frequency(&'a'), 1);
    assert_eq!(stats.frequency(&'z'), 0);
    assert_eq!(stats.ratio(&'t'), Ratio { num: 2, den: 6 });
    assert_eq!(stats.ratio(&'a'), Ratio { num: 1, den: 6 });
    assert_eq!(stats.ratio(&'z'), Ratio { num: 0, den: 1 });
    let t = stats.child(&'t').unwrap();
    assert_eq!(t.copy_symbol_keys(), vec!['a', 's']);
    assert_eq!(t.ratio(&'a'), Ratio { num: 1, den: 2 });
    assert_eq!(t.ratio(&'s'), Ratio { num: 1, den: 2 });
    let s = stats.child(&'s').unwrap();
    assert_eq!(s.frequency(&'t'), 1);
    assert_eq!(s.frequency(&' '), 1);
}

#[test]
fn shares_of_children_add_up_to_one() {
    let mut stats = CorpusStats::new();
    stats.read("the quick brown fox jumps over the lazy dog").finish();
    let mut numerators = 0;
    let mut sum = 0.0;
    for key in stats.copy_symbol_keys() {
        let share = stats.ratio(&key);
        assert_eq!(share.den, stats.own_frequency());
        numerators += share.num;
        sum += value(share);
        let context = stats.child(&key).unwrap();
        let mut below = 0;
        for next in context.copy_symbol_keys() {
            let inner = context.ratio(&next);
            assert_eq!(inner.den, context.own_frequency());
            below += inner.num;
        }
        assert_eq!(below, context.own_frequency());
    }
    assert_eq!(numerators, stats.own_frequency());
    assert_eq!(stats.own_frequency(), 44);
    assert!((sum - 1.0).abs() < 1e-9);
}

#[test]
fn reads_accumulate() {
    let mut stats = CorpusStats::new();
    stats.read("ab");
    stats.read("ab");
    stats.finish();
    assert_eq!(stats.own_frequency(), 6);
    assert_eq!(stats.frequency(&'a'), 2);
    assert_eq!(stats.child(&'a').unwrap().frequency(&'b'), 2);
    assert_eq!(stats.child(&' ').unwrap().frequency(&'a'), 2);
    assert_eq!(stats.child(&'b').unwrap().frequency(&' '), 2);
}

#[test]
fn read_after_finish_counts_on() {
    let mut stats = CorpusStats::new();
    stats.read("ab").finish();
    assert_eq!(stats.own_frequency(), 3);
    stats.read("ac").finish();
    assert_eq!(stats.own_frequency(), 6);
    assert_eq!(stats.ratio(&'a'), Ratio { num: 2, den: 6 });
    let a = stats.child(&'a').unwrap();
    assert_eq!(a.ratio(&'b'), Ratio { num: 1, den: 2 });
    assert_eq!(a.ratio(&'c'), Ratio { num: 1, den: 2 });
}

#[test]
fn unfinished_model_has_no_shares() {
    let mut stats = CorpusStats::new();
    stats.read("ab");
    assert_eq!(stats.own_frequency(), 0);
    assert_eq!(stats.frequency(&'a'), 0);
    assert_eq!(stats.ratio(&'a'), Ratio { num: 0, den: 1 });
    assert_eq!(stats.child(&'a').unwrap().frequency(&'b'), 1);
}

#[test]
fn boundary_symbol_can_be_chosen() {
    let mut stats = CorpusStats::new();
    stats.read_with("ab", '#').finish();
    assert_eq!(stats.copy_symbol_keys(), vec!['#', 'a', 'b']);
    assert_eq!(stats.child(&'#').unwrap().frequency(&'a'), 1);
    assert_eq!(stats.child(&'b').unwrap().frequency(&'#'), 1);
    assert!(stats.child(&' ').is_none());
    assert_eq!(CHAR_DEFAULT, ' ');
}

#[test]
fn increment_counts_a_symbol() {
    let mut stats = CorpusStats::new();
    stats.increment('x');
    stats.increment('y');
    stats.increment('x');
    assert_eq!(stats.copy_symbol_keys(), vec!['x', 'y']);
    assert_eq!(stats.frequency(&'x'), 2);
    assert_eq!(stats.frequency(&'y'), 1);
    stats.finish();
    assert_eq!(stats.own_frequency(), 3);
    assert_eq!(stats.ratio(&'x'), Ratio { num: 2, den: 3 });
}

#[test]
fn zero_parent_gives_zero_share() {
    assert_eq!(Ratio::of(3, 0), Ratio { num: 0, den: 1 });
    assert_eq!(Ratio::of(0, 0), Ratio::zero());
    assert_eq!(Ratio::of(1, 3), Ratio { num: 1, den: 3 });
    assert_eq!(value(Ratio::of(5, 0)), 0.0);
}

#[test]
fn from_text_reads_and_finishes() {
    let stats = CorpusStats::from_text("stats");
    assert_eq!(stats.own_frequency(), 6);
    assert_eq!(stats.ratio(&'t'), Ratio { num: 2, den: 6 });
}

#[test]
fn diff_with_itself_is_zero() {
    let stats = CorpusStats::from_text("the quick brown fox jumps over the lazy dog");
    for term in stats.diff_terms(&stats) {
        assert_eq!(term.own, term.other);
    }
    assert_eq!(diff(&stats, &stats), 0.0);
}

#[test]
fn diff_terms_follow_the_first_model() {
    let own = CorpusStats::from_text("ab");
    let other = CorpusStats::from_text("bc");
    let terms = own.diff_terms(&other);
    // own: ( ,a) (a,b) (b, ); other: ( ,b) (b,c) (c, )
    assert_eq!(terms.len(), 3);
    assert_eq!(terms[0].symbol, ' ');
    assert_eq!(terms[0].own, Ratio { num: 1, den: 3 });
    assert_eq!(terms[0].other, Ratio { num: 1, den: 3 });
    assert_eq!(terms[0].weight, 1);
    assert_eq!(terms[1].symbol, 'a');
    assert_eq!(terms[1].own, Ratio { num: 1, den: 3 });
    assert_eq!(terms[1].other, Ratio { num: 0, den: 1 });
    assert_eq!(terms[1].weight, 1);
    assert_eq!(terms[2].symbol, 'b');
    assert_eq!(terms[2].other, Ratio { num: 1, den: 3 });
    let expected = (1.0f64 / 3.0) * (1.0 / 3.0);
    assert!((diff(&own, &other) - expected).abs() < 1e-12);
}

#[test]
fn diff_is_directed() {
    let own = CorpusStats::from_text("aab");
    let other = CorpusStats::from_text("abc");
    // own contexts: ' ' 1/4, a 2/4, b 1/4; other: ' ', a, b, c at 1/4 each
    let forth = diff(&own, &other);
    let back = diff(&other, &own);
    assert!((forth - 0.125).abs() < 1e-12);
    assert!((back - 0.125).abs() < 1e-12);
    let third = CorpusStats::from_text("aaab");
    // third contexts: ' ' 1/5, a 3/5, b 1/5
    let one = diff(&own, &third);
    let two = diff(&third, &own);
    assert!((one - (0.0025 + 0.02 + 0.0025)).abs() < 1e-12);
    assert!((two - (0.0025 + 0.03 + 0.0025)).abs() < 1e-12);
    assert!(one != two);
}

#[test]
fn tree_can_be_built_from_counts() {
    let mut context = CorpusStats::leaf(3);
    context.insert('b', CorpusStats::leaf(1));
    context.insert('c', CorpusStats::leaf(2));
    let mut stats = CorpusStats::leaf(4);
    stats.insert('a', context);
    stats.insert('z', CorpusStats::leaf(1));
    assert_eq!(stats.own_frequency(), 4);
    assert_eq!(stats.copy_symbol_keys(), vec!['a', 'z']);
    assert_eq!(stats.ratio(&'a'), Ratio { num: 0, den: 1 });

    stats.calculate_ratios();
    assert_eq!(stats.own_frequency(), 4);
    assert_eq!(stats.own_ratio(), Ratio { num: 0, den: 1 });
    assert_eq!(stats.ratio(&'a'), Ratio { num: 3, den: 4 });
    assert_eq!(stats.ratio(&'z'), Ratio { num: 1, den: 4 });
    let a = stats.child(&'a').unwrap();
    assert_eq!(a.ratio(&'b'), Ratio { num: 1, den: 3 });
    assert_eq!(a.ratio(&'c'), Ratio { num: 2, den: 3 });
}

#[test]
fn insert_replaces_the_child_of_a_known_symbol() {
    let mut stats = CorpusStats::new();
    stats.insert('a', CorpusStats::leaf(1));
    stats.insert('b', CorpusStats::leaf(2));
    stats.insert('a', CorpusStats::leaf(5));
    assert_eq!(stats.copy_symbol_keys(), vec!['a', 'b']);
    assert_eq!(stats.frequency(&'a'), 5);
    assert_eq!(stats.frequency(&'b'), 2);
    stats.finish();
    assert_eq!(stats.own_frequency(), 7);
    assert_eq!(stats.ratio(&'a'), Ratio { num: 5, den: 7 });
}

#[test]
fn children_of_a_node_that_counts_nothing_have_zero_share() {
    let mut stats = CorpusStats::leaf(0);
    stats.insert('a', CorpusStats::leaf(3));
    stats.calculate_ratios();
    assert_eq!(stats.ratio(&'a'), Ratio { num: 0, den: 1 });
    assert_eq!(value(stats.ratio(&'a')), 0.0);
}

#[test]
fn finish_sums_a_deeper_tree_from_its_leaves() {
    let mut low = CorpusStats::leaf(100);
    low.insert('x', CorpusStats::leaf(2));
    low.insert('y', CorpusStats::leaf(3));
    let mut mid = CorpusStats::leaf(0);
    mid.insert('m', low);
    mid.insert('n', CorpusStats::leaf(5));
    let mut stats = CorpusStats::new();
    stats.insert('a', mid);
    stats.finish();
    assert_eq!(stats.own_frequency(), 10);
    let a = stats.child(&'a').unwrap();
    assert_eq!(a.own_frequency(), 10);
    assert_eq!(a.own_ratio(), Ratio { num: 10, den: 10 });
    let m = a.child(&'m').unwrap();
    assert_eq!(m.own_frequency(), 5);
    assert_eq!(m.own_ratio(), Ratio { num: 5, den: 10 });
    assert_eq!(m.ratio(&'x'), Ratio { num: 2, den: 5 });
    assert_eq!(m.ratio(&'y'), Ratio { num: 3, den: 5 });
    assert_eq!(a.ratio(&'n'), Ratio { num: 5, den: 10 });
}
