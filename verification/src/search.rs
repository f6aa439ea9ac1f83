//! Greedy search over keys.
//!
//! The search holds the best key found so far and its score. One step
//! proposes a neighbour of that key and what it makes of the ciphertext; the
//! caller scores the proposal; the search then accepts it if the score is a
//! strict improvement and rejects it otherwise. The search ends when its
//! budget of steps is used up, never earlier.
//!
//! A score is handed in as an unsigned integer that orders as the
//! divergence it stands for: the lower, the better.

use crate::message::{CipherKey, Substitution};
use crate::model::Tally;
use crate::stats::{CorpusStats, CHAR_DEFAULT};
use vstd::prelude::*;

verus! {

/// A key and what it makes of the ciphertext.
#[derive(Debug)]
pub struct Candidate {
    pub key: CipherKey,
    pub plain: String,
    pub stats: CorpusStats,
}

impl Candidate {
    /// `key` is valid, `plain` is `ciphertext` deciphered with it, and
    /// `stats` is the finished model of `plain`.
    pub open spec fn is_reading_of(&self, ciphertext: Seq<char>) -> bool {
        &&& self.key.wf()
        &&& self.stats.wf()
        &&& self.plain@ == self.key@.decipher(ciphertext)
        &&& self.stats@ == Tally::empty().read(self.plain@, CHAR_DEFAULT).finished()
    }

    /// What `key` makes of `ciphertext`.
    pub fn evaluate(key: CipherKey, ciphertext: &str) -> (candidate: Candidate)
        requires
            key.wf(),
            ciphertext@.len() < u64::MAX,
        ensures
            candidate.key@ == key@,
            candidate.is_reading_of(ciphertext@),
    {
        let plain = key.decipher(ciphertext);
        let stats = CorpusStats::from_text(plain.as_str());
        Candidate { key, plain, stats }
    }
}

/// The two states of a search.
#[derive(Clone, Copy, Debug, PartialEq, Eq, Structural)]
pub enum Phase {
    /// Steps are left.
    Exploring,
    /// The budget is used up.
    Terminated,
}

/// Abstract value of a search.
pub struct Progress {
    /// The best key so far.
    pub key: Substitution,
    /// What the best key makes of the ciphertext.
    pub plain: Seq<char>,
    /// The score of the best key.
    pub score: u64,
    /// Steps decided so far.
    pub iteration: nat,
    /// Steps to decide in all.
    pub budget: nat,
}

impl Progress {
    /// The state after a proposal with `score` was decided: it takes the
    /// place of the best key if and only if `score` is lower than the best
    /// key's, and one more step is used either way.
    pub open spec fn decided(self, key: Substitution, plain: Seq<char>, score: u64) -> Progress {
        if score < self.score {
            Progress { key, plain, score, iteration: self.iteration + 1, budget: self.budget }
        } else {
            Progress { iteration: self.iteration + 1, ..self }
        }
    }

    /// The phase of the search.
    pub open spec fn phase(self) -> Phase {
        if self.iteration < self.budget {
            Phase::Exploring
        } else {
            Phase::Terminated
        }
    }
}

/// A greedy search: the best key so far, its score, and the steps used.
#[derive(Debug)]
pub struct Search {
    key: CipherKey,
    plain: String,
    score: u64,
    iteration: u64,
    budget: u64,
}

impl View for Search {
    type V = Progress;

    closed spec fn view(&self) -> Progress {
        Progress {
            key: self.key@,
            plain: self.plain@,
            score: self.score,
            iteration: self.iteration as nat,
            budget: self.budget as nat,
        }
    }
}

impl Search {
    /// The search is valid: its key is, and no more steps are used than the budget holds.
    pub closed spec fn wf(&self) -> bool {
        &&& self.key.wf()
        &&& self.iteration <= self.budget
    }

    /// A search that starts from `baseline`, the unperturbed initial key,
    /// which scored `score`, with `budget` steps ahead.
    pub fn start(baseline: Candidate, score: u64, budget: u64) -> (search: Search)
        requires
            baseline.key.wf(),
        ensures
            search.wf(),
            search@ == (Progress {
                key: baseline.key@,
                plain: baseline.plain@,
                score,
                iteration: 0,
                budget: budget as nat,
            }),
    {
        Search { key: baseline.key, plain: baseline.plain, score, iteration: 0, budget }
    }

    /// The phase of the search.
    pub fn phase(&self) -> (phase: Phase)
        requires
            self.wf(),
        ensures
            phase == self@.phase(),
    {
        if self.iteration < self.budget {
            Phase::Exploring
        } else {
            Phase::Terminated
        }
    }

    /// Whether the budget is used up.
    pub fn is_terminated(&self) -> (done: bool)
        requires
            self.wf(),
        ensures
            done == (self@.phase() == Phase::Terminated),
    {
        self.iteration >= self.budget
    }

    /// Steps decided so far.
    pub fn iteration(&self) -> (iteration: u64)
        ensures
            iteration == self@.iteration,
    {
        self.iteration
    }

    /// The score of the best key so far.
    pub fn score(&self) -> (score: u64)
        ensures
            score == self@.score,
    {
        self.score
    }

    /// What the best key so far makes of the ciphertext.
    pub fn plain(&self) -> (plain: &str)
        ensures
            plain@ == self@.plain,
    {
        self.plain.as_str()
    }

    /// The best key so far.
    pub fn key(&self) -> (key: &CipherKey)
        requires
            self.wf(),
        ensures
            key@ == self@.key,
            key.wf(),
    {
        &self.key
    }

    /// A neighbour of the best key so far, and what it makes of `ciphertext`:
    /// a copy of the key, perturbed. The search itself stays as it is, its
    /// key's random source included: after a rejection the next proposal is
    /// drawn from the same state.
    pub fn propose(&self, ciphertext: &str) -> (candidate: Candidate)
        requires
            self.wf(),
            ciphertext@.len() < u64::MAX,
        ensures
            candidate.is_reading_of(ciphertext@),
            exists|a: char, b: char|
                self@.key.alphabet.contains(a) && self@.key.alphabet.contains(b) && candidate.key@
                    == #[trigger] self@.key.swapped(a, b),
    {
        let mut neighbour = self.key.clone();
        neighbour.perturb();
        proof {
            let before = self@.key;
            let (a, b) = choose|a: char, b: char|
                before.alphabet.contains(a) && before.alphabet.contains(b) && neighbour@
                    == #[trigger] before.swapped(a, b);
            assert(neighbour@ == self@.key.swapped(a, b));
        }
        Candidate::evaluate(neighbour, ciphertext)
    }

    /// Decides on `candidate`, which scored `score`: it is accepted, and
    /// takes the place of the best key, if and only if `score` is lower than
    /// the best key's. Equal scores are rejected.
    pub fn decide(&mut self, candidate: Candidate, score: u64) -> (accepted: bool)
        requires
            old(self).wf(),
            old(self)@.phase() == Phase::Exploring,
            candidate.key.wf(),
        ensures
            final(self).wf(),
            accepted == (score < old(self)@.score),
            final(self)@ == old(self)@.decided(candidate.key@, candidate.plain@, score),
    {
        self.iteration = self.iteration + 1;
        if score < self.score {
            self.key = candidate.key;
            self.plain = candidate.plain;
            self.score = score;
            true
        } else {
            false
        }
    }
}

} // verus!
