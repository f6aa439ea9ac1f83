//! Symbol-transition frequency model.
//!
//! A [`CorpusStats`] counts, for each symbol of a text, which symbols follow
//! it. `read` accumulates the transitions of a text, `finish` derives the
//! counts of the inner nodes and every node's share of its parent.

use crate::lemmas::{
    lemma_frequencies_step, lemma_heights, lemma_incremented_wf, lemma_occurrences_bounded,
    lemma_occurrences_prefix, lemma_occurrences_step, lemma_rated_each, lemma_rated_wf,
    lemma_recorded_all, lemma_recorded_all_weight, lemma_recorded_wf, lemma_slot_unique, lemma_summed_each, lemma_summed_frequency,
    lemma_summed_wf, lemma_weights_prefix, lemma_weights_step, lemma_with_child_wf,
    lemma_with_entry,
};
use crate::model::{occurrences, transitions, Deviation, Share, Tally};
use vstd::std_specs::iter::IteratorSpec;
use vstd::prelude::*;

verus! {

/// Boundary symbol that stands before the first and after the last symbol of a text.
pub const CHAR_DEFAULT: char = ' ';

/// A share `num / den` of a parent's transitions, kept exact.
#[derive(Clone, Copy, Debug, PartialEq, Eq, Structural)]
pub struct Ratio {
    pub num: u64,
    pub den: u64,
}

impl View for Ratio {
    type V = Share;

    open spec fn view(&self) -> Share {
        Share { num: self.num as nat, den: self.den as nat }
    }
}

impl Ratio {
    /// The share that stands for zero.
    pub fn zero() -> (ratio: Ratio)
        ensures
            ratio@ == Share::zero(),
    {
        Ratio { num: 0, den: 1 }
    }

    /// `part / whole`, and zero where `whole` is zero.
    pub fn of(part: u64, whole: u64) -> (ratio: Ratio)
        ensures
            ratio@ == Share::of(part as nat, whole as nat),
    {
        if whole == 0 {
            Ratio::zero()
        } else {
            Ratio { num: part, den: whole }
        }
    }
}

/// One term of the divergence of two models. The divergence is the sum, over
/// the terms, of the squared difference of `own` and `other` times `weight`.
#[derive(Clone, Copy, Debug, PartialEq, Eq, Structural)]
pub struct DiffTerm {
    pub symbol: char,
    pub own: Ratio,
    pub other: Ratio,
    pub weight: u64,
}

impl View for DiffTerm {
    type V = Deviation;

    open spec fn view(&self) -> Deviation {
        Deviation {
            symbol: self.symbol,
            own: self.own@,
            other: self.other@,
            weight: self.weight as nat,
        }
    }
}

/// One node of the frequency tree; the root is the model of a corpus.
///
/// Its value is a [`Tally`]: the symbols seen in this context keep the order
/// in which they were first seen, and each has one child.
#[derive(Debug)]
pub struct CorpusStats {
    frequency: u64,
    ratio: Ratio,
    symbols: Vec<char>,
    children: Vec<CorpusStats>,
}

impl View for CorpusStats {
    type V = Tally;

    closed spec fn view(&self) -> Tally {
        self.model()
    }
}

impl CorpusStats {
    /// The value of this node.
    spec fn model(&self) -> Tally
        decreases self, 1nat,
    {
        Tally {
            frequency: self.frequency as nat,
            ratio: self.ratio@,
            symbols: self.symbols@,
            children: Self::models(self.children@),
        }
    }

    /// The values of `nodes`, place by place.
    spec fn models(nodes: Seq<CorpusStats>) -> Seq<Tally>
        decreases nodes, 0nat,
    {
        if nodes.len() == 0 {
            Seq::empty()
        } else {
            Self::models(nodes.drop_last()).push(nodes.last().model())
        }
    }

    /// `models` works node by node.
    proof fn lemma_models(nodes: Seq<CorpusStats>)
        ensures
            Self::models(nodes).len() == nodes.len(),
            forall|i: int| 0 <= i < nodes.len() ==> Self::models(nodes)[i] == nodes[i].model(),
        decreases nodes.len(),
    {
        if nodes.len() > 0 {
            Self::lemma_models(nodes.drop_last());
        }
    }

    /// The node is valid: its model is well formed.
    pub open spec fn wf(&self) -> bool {
        self@.wf()
    }

    /// An empty model.
    pub fn new() -> (stats: CorpusStats)
        ensures
            stats@ == Tally::empty(),
            stats.wf(),
    {
        let stats = CorpusStats {
            frequency: 0,
            ratio: Ratio::zero(),
            symbols: Vec::new(),
            children: Vec::new(),
        };
        proof {
            Self::lemma_models(stats.children@);
            assert(stats.model().children =~= Seq::empty());
        }
        stats
    }

    /// A node that counts `frequency` and has no children.
    pub fn leaf(frequency: u64) -> (stats: CorpusStats)
        ensures
            stats@ == Tally::leaf(frequency as nat),
            stats.wf(),
    {
        let mut stats = CorpusStats::new();
        stats.frequency = frequency;
        proof {
            Self::lemma_models(stats.children@);
            assert(stats.model().children =~= Seq::empty());
        }
        stats
    }

    /// Makes `child` the child of `symbol`, in place of the child that
    /// `symbol` had or as a new last child.
    pub fn insert(&mut self, symbol: char, child: CorpusStats)
        requires
            old(self).wf(),
            child.wf(),
        ensures
            final(self).wf(),
            final(self)@ == old(self)@.with_child(symbol, child@),
    {
        let ghost before = *self;
        proof {
            Self::lemma_models(self.children@);
            lemma_with_child_wf(before@, symbol, child@);
        }
        match self.find(symbol) {
            Some(i) => {
                self.children[i] = child;
                proof {
                    Self::lemma_models(self.children@);
                    assert(self.model().children =~= before@.children.update(i as int, child@));
                }
            },
            None => {
                self.symbols.push(symbol);
                self.children.push(child);
                proof {
                    Self::lemma_models(self.children@);
                    assert(self.model().children =~= before@.children.push(child@));
                }
            },
        }
    }

    /// Position of `c` among the symbols of this node.
    fn find(&self, c: char) -> (slot: Option<usize>)
        requires
            self.wf(),
        ensures
            match slot {
                Some(i) => self@.has(c) && i == self@.slot(c) && i < self@.symbols.len(),
                None => !self@.has(c),
            },
    {
        let n = self.symbols.len();
        let mut i: usize = 0;
        while i < n
            invariant
                i <= n,
                n == self.symbols@.len(),
                self.wf(),
                forall|j: int| 0 <= j < i ==> self.symbols@[j] != c,
            decreases n - i,
        {
            if self.symbols[i] == c {
                proof {
                    lemma_slot_unique(self.symbols@, i as int);
                }
                return Some(i);
            }
            i += 1;
        }
        None
    }

    /// Position of the child of `c`, which is created empty where `c` is new.
    fn entry(&mut self, c: char) -> (slot: usize)
        requires
            old(self).wf(),
        ensures
            final(self).wf(),
            final(self)@ == old(self)@.with_entry(c),
            final(self)@.has(c),
            slot == final(self)@.slot(c),
            slot < final(self)@.children.len(),
            slot < final(self).children@.len(),
    {
        proof {
            Self::lemma_models(self.children@);
        }
        match self.find(c) {
            Some(i) => i,
            None => {
                let ghost before = *self;
                let i = self.symbols.len();
                self.symbols.push(c);
                self.children.push(CorpusStats::new());
                proof {
                    Self::lemma_models(self.children@);
                    assert(self.model().children =~= before.model().children.push(Tally::empty()));
                    assert(self.model() == before.model().with_entry(c));
                    lemma_with_entry(before.model(), c);
                    assert(self.symbols@[i as int] == c);
                }
                i
            },
        }
    }

    /// Counts one more occurrence of `symbol` in this context.
    pub fn increment(&mut self, symbol: char)
        requires
            old(self).wf(),
            old(self)@.frequency_of(symbol) < u64::MAX,
        ensures
            final(self).wf(),
            final(self)@ == old(self)@.incremented(symbol),
    {
        let ghost before = *self;
        let i = self.entry(symbol);
        let ghost grown = *self;
        proof {
            Self::lemma_models(self.children@);
            lemma_with_entry(before@, symbol);
        }
        let child = &mut self.children[i];
        child.frequency = child.frequency + 1;
        proof {
            Self::lemma_models(self.children@);
            assert(self.children@[i as int].model() == grown@.children[i as int].bumped()) by {
                Self::lemma_models(self.children@[i as int].children@);
                Self::lemma_models(grown.children@[i as int].children@);
            }
            assert(self.model().children =~= grown@.children.update(
                i as int,
                grown@.children[i as int].bumped(),
            ));
            lemma_incremented_wf(before@, symbol);
        }
    }

    /// Count of this node: of the root, every transition read.
    pub fn own_frequency(&self) -> (frequency: u64)
        ensures
            frequency == self@.frequency,
    {
        self.frequency
    }

    /// Share of this node in its parent's count.
    pub fn own_ratio(&self) -> (ratio: Ratio)
        ensures
            ratio@ == self@.ratio,
    {
        self.ratio
    }

    /// The symbols seen in this context, in the order they were first seen.
    pub fn copy_symbol_keys(&self) -> (keys: Vec<char>)
        ensures
            keys@ == self@.symbols,
    {
        let n = self.symbols.len();
        let mut keys: Vec<char> = Vec::new();
        let mut i: usize = 0;
        while i < n
            invariant
                i <= n,
                n == self.symbols@.len(),
                keys@ == self.symbols@.take(i as int),
            decreases n - i,
        {
            keys.push(self.symbols[i]);
            i += 1;
        }
        proof {
            assert(self.symbols@.take(n as int) == self.symbols@);
        }
        keys
    }

    /// The child of `c`, if `c` was seen in this context.
    pub fn child(&self, c: &char) -> (node: Option<&CorpusStats>)
        requires
            self.wf(),
        ensures
            match node {
                Some(found) => self@.has(*c) && found@ == self@.child(*c) && found.wf(),
                None => !self@.has(*c),
            },
    {
        proof {
            Self::lemma_models(self.children@);
        }
        match self.find(*c) {
            Some(i) => {
                assert(self@.children[i as int].wf());
                Some(&self.children[i])
            },
            None => None,
        }
    }

    /// Share of the context `c` in the whole, zero where `c` was never seen.
    pub fn ratio(&self, c: &char) -> (ratio: Ratio)
        requires
            self.wf(),
        ensures
            ratio@ == self@.ratio_of(*c),
    {
        match self.child(c) {
            Some(x) => x.ratio,
            None => Ratio::zero(),
        }
    }

    /// Count of the context `c`, zero where `c` was never seen.
    pub fn frequency(&self, c: &char) -> (frequency: u64)
        requires
            self.wf(),
        ensures
            frequency == self@.frequency_of(*c),
    {
        match self.child(c) {
            Some(x) => x.frequency,
            None => 0,
        }
    }

    /// The term that the `i`-th context of this model adds to its divergence from `other`.
    fn diff_term(&self, other: &CorpusStats, i: usize) -> (term: DiffTerm)
        requires
            self.wf(),
            other.wf(),
            i < self@.symbols.len(),
        ensures
            term@ == self@.deviation(other@, i as int),
    {
        let key = self.symbols[i];
        DiffTerm {
            symbol: key,
            own: self.ratio(&key),
            other: other.ratio(&key),
            weight: self.frequency(&key),
        }
    }

    /// The terms of the divergence of this model from `other`, one for each
    /// context of this model in the order of `copy_symbol_keys`. The sum is
    /// directed: a context that only `other` has adds nothing.
    pub fn diff_terms(&self, other: &CorpusStats) -> (terms: Vec<DiffTerm>)
        requires
            self.wf(),
            other.wf(),
        ensures
            terms@.len() == self@.symbols.len(),
            forall|i: int|
                0 <= i < terms@.len() ==> (#[trigger] terms@[i])@ == self@.deviation(other@, i),
    {
        let n = self.symbols.len();
        let mut terms: Vec<DiffTerm> = Vec::new();
        let mut i: usize = 0;
        while i < n
            invariant
                i <= n,
                n == self@.symbols.len(),
                self.wf(),
                other.wf(),
                terms@.len() == i,
                forall|j: int|
                    0 <= j < i ==> (#[trigger] terms@[j])@ == self@.deviation(other@, j),
            decreases n - i,
        {
            let term = self.diff_term(other, i);
            terms.push(term);
            i += 1;
        }
        terms
    }

    /// Reads `corpus` between two boundary symbols `boundary`: counts the
    /// transition into each symbol from the one before it, and one more from
    /// the last symbol back to the boundary.
    pub fn read_with(&mut self, corpus: &str, boundary: char) -> (ret: &mut CorpusStats)
        requires
            old(self).wf(),
            old(self)@.has_room_for(transitions(corpus@, boundary)),
        ensures
            ret.wf(),
            ret@ == old(self)@.read(corpus@, boundary),
            *final(self) == *final(ret),
    {
        let ghost before = self@;
        let ghost pairs = transitions(corpus@, boundary);
        let mut previous = boundary;
        for c in it: corpus.chars()
            invariant
                it.seq() == corpus@,
                pairs == transitions(corpus@, boundary),
                before.wf(),
                before.has_room_for(pairs),
                self.wf(),
                self@ == before.recorded_all(pairs.take(it.index() as int)),
                previous == if it.index() == 0 {
                    boundary
                } else {
                    corpus@[it.index() - 1]
                },
        {
            proof {
                let n = it.index() as int;
                assert(pairs[n] == (previous, c));
                lemma_recorded_all(before, pairs.take(n));
                lemma_occurrences_step(pairs, n, previous, c);
                lemma_occurrences_prefix(pairs, n + 1, previous, c);
                assert(pairs.take(n + 1).drop_last() == pairs.take(n));
            }
            self.increment_transition(previous, c);
            previous = c;
        }
        proof {
            let n = corpus@.len() as int;
            assert(pairs[n] == (previous, boundary));
            lemma_recorded_all(before, pairs.take(n));
            lemma_occurrences_step(pairs, n, previous, boundary);
            lemma_occurrences_prefix(pairs, n + 1, previous, boundary);
            assert(pairs.take(n + 1).drop_last() == pairs.take(n));
            assert(pairs.take(n + 1) == pairs);
        }
        self.increment_transition(previous, boundary)
    }

    /// Reads `corpus` with the space as boundary symbol. May be called again
    /// to add more text: the counts add up.
    pub fn read(&mut self, corpus: &str) -> (ret: &mut CorpusStats)
        requires
            old(self).wf(),
            old(self)@.has_room_for(transitions(corpus@, CHAR_DEFAULT)),
        ensures
            ret.wf(),
            ret@ == old(self)@.read(corpus@, CHAR_DEFAULT),
            *final(self) == *final(ret),
    {
        self.read_with(corpus, CHAR_DEFAULT)
    }

    /// Derives every count that `read` does not keep: the counts of the
    /// nodes with children, then every node's share of its parent.
    pub fn finish(&mut self) -> (ret: &mut CorpusStats)
        requires
            old(self).wf(),
            old(self)@.weight() <= u64::MAX,
        ensures
            ret.wf(),
            ret@ == old(self)@.finished(),
            *final(self) == *final(ret),
    {
        self.sum_frequencies().calculate_ratios()
    }

    /// First pass, bottom-up: a node with children counts what they count together.
    fn sum_frequencies(&mut self) -> (ret: &mut CorpusStats)
        requires
            old(self).wf(),
            old(self)@.weight() <= u64::MAX,
        ensures
            ret.wf(),
            ret@ == old(self)@.summed(),
            *final(self) == *final(ret),
        decreases *old(self),
    {
        let ghost before = *self;
        let n = self.children.len();
        proof {
            Self::lemma_models(self.children@);
            lemma_summed_each(before@.children);
            lemma_summed_wf(before@);
        }
        if n > 0 {
            let mut total: u64 = 0;
            let mut i: usize = 0;
            while i < n
                invariant
                    i <= n,
                    n == self.children@.len(),
                    n == before.children@.len(),
                    before == *old(self),
                    before.wf(),
                    before@.children == Self::models(before.children@),
                    Tally::weights(before@.children) <= u64::MAX,
                    self.frequency == before.frequency,
                    self.ratio == before.ratio,
                    self.symbols == before.symbols,
                    forall|j: int|
                        0 <= j < i ==> (#[trigger] self.children@[j]).model()
                            == Tally::summed_each(before@.children)[j],
                    forall|j: int| i <= j < n ==> self.children@[j] == before.children@[j],
                    total == Tally::frequencies(Tally::summed_each(before@.children).take(i as int)),
                    total == Tally::weights(before@.children.take(i as int)),
                decreases n - i,
            {
                proof {
                    Self::lemma_models(before.children@);
                    lemma_weights_step(before@.children, i as int);
                    lemma_weights_prefix(before@.children, i as int + 1);
                    lemma_summed_each(before@.children);
                    lemma_frequencies_step(Tally::summed_each(before@.children), i as int);
                    lemma_summed_frequency(before@.children[i as int]);
                    assert(before@.children[i as int].wf());
                }
                self.children[i].sum_frequencies();
                total = total + self.children[i].frequency;
                i += 1;
            }
            self.frequency = total;
            proof {
                Self::lemma_models(self.children@);
                assert(before@.children.take(n as int) == before@.children);
                assert(Tally::summed_each(before@.children).take(n as int) == Tally::summed_each(
                    before@.children,
                ));
                assert(self.model().children =~= Tally::summed_each(before@.children));
            }
        }
        self
    }

    /// Second pass, top-down: a child holds its count over its parent's as
    /// its share, and zero where its parent counts nothing.
    pub fn calculate_ratios(&mut self) -> (ret: &mut CorpusStats)
        requires
            old(self).wf(),
        ensures
            ret.wf(),
            ret@ == old(self)@.rated(),
            *final(self) == *final(ret),
        decreases old(self)@.height(),
    {
        let ghost before = *self;
        let n = self.children.len();
        let whole = self.frequency;
        proof {
            Self::lemma_models(self.children@);
            lemma_rated_each(before@.children, before@.frequency);
            lemma_rated_wf(before@);
        }
        let mut i: usize = 0;
        while i < n
            invariant
                i <= n,
                n == self.children@.len(),
                n == before.children@.len(),
                before == *old(self),
                before.wf(),
                before@.children == Self::models(before.children@),
                whole == before.frequency,
                self.frequency == before.frequency,
                self.ratio == before.ratio,
                self.symbols == before.symbols,
                forall|j: int|
                    0 <= j < i ==> (#[trigger] self.children@[j]).model() == Tally::rated_each(
                        before@.children,
                        before@.frequency,
                    )[j],
                forall|j: int| i <= j < n ==> self.children@[j] == before.children@[j],
            decreases n - i,
        {
            proof {
                Self::lemma_models(before.children@);
                lemma_rated_each(before@.children, before@.frequency);
                assert(before@.children[i as int].wf());
            }
            let child = &mut self.children[i];
            child.ratio = Ratio::of(child.frequency, whole);
            proof {
                Self::lemma_models(child.children@);
                Self::lemma_models(before.children@[i as int].children@);
                lemma_heights(before@.children, i as int);
            }
            child.calculate_ratios();
            i += 1;
        }
        proof {
            Self::lemma_models(self.children@);
            assert(self.model().children =~= Tally::rated_each(before@.children, before@.frequency));
        }
        self
    }

    /// The finished model of `text` alone, read with the space as boundary symbol.
    pub fn from_text(text: &str) -> (stats: CorpusStats)
        requires
            text@.len() < u64::MAX,
        ensures
            stats.wf(),
            stats@ == Tally::empty().read(text@, CHAR_DEFAULT).finished(),
    {
        let mut stats = CorpusStats::new();
        proof {
            let pairs = transitions(text@, CHAR_DEFAULT);
            assert forall|from: char, to: char|
                Tally::empty().count(from, to) + #[trigger] occurrences(pairs, from, to)
                    <= u64::MAX by {
                lemma_occurrences_bounded(pairs, from, to);
            }
            lemma_recorded_all_weight(Tally::empty(), pairs);
        }
        stats.read(text).finish();
        stats
    }

    /// Counts one more transition from `from` to `to`.
    fn increment_transition(&mut self, from: char, to: char) -> (ret: &mut CorpusStats)
        requires
            old(self).wf(),
            old(self)@.count(from, to) < u64::MAX,
        ensures
            ret.wf(),
            ret@ == old(self)@.recorded(from, to),
            *final(self) == *final(ret),
    {
        let ghost before = *self;
        let i = self.entry(from);
        let ghost grown = *self;
        proof {
            Self::lemma_models(self.children@);
            lemma_with_entry(before@, from);
        }
        self.children[i].increment(to);
        proof {
            Self::lemma_models(self.children@);
            assert(self.model().children =~= grown@.children.update(
                i as int,
                grown@.children[i as int].incremented(to),
            ));
            lemma_recorded_wf(before@, from, to);
        }
        self
    }
}

} // verus!
