//! Mathematical model of the frequency tree.
//!
//! A [`Tally`] is the abstract value of a node: a count, a share of the
//! parent's count, and an ordered list of distinct symbols with one child
//! each. Every contract of the executable model is stated over it.

use vstd::prelude::*;

verus! {

/// An exact fraction `num / den`.
pub struct Share {
    pub num: nat,
    pub den: nat,
}

impl Share {
    /// The fraction that stands for zero.
    pub open spec fn zero() -> Share {
        Share { num: 0, den: 1 }
    }

    /// `part / whole`, and zero where `whole` is zero.
    pub open spec fn of(part: nat, whole: nat) -> Share {
        if whole == 0 {
            Share::zero()
        } else {
            Share { num: part, den: whole }
        }
    }

    /// The denominator is positive.
    pub open spec fn wf(self) -> bool {
        self.den > 0
    }

    /// The fraction lies between zero and one.
    pub open spec fn is_proper(self) -> bool {
        self.num <= self.den && self.den > 0
    }
}

/// What one context adds to the divergence of two models: the squared
/// difference of the two shares, weighted by `weight`.
pub struct Deviation {
    /// The context.
    pub symbol: char,
    /// Share of the context in the model that is compared.
    pub own: Share,
    /// Share of the context in the model it is compared with.
    pub other: Share,
    /// Count of the context in the model that is compared.
    pub weight: nat,
}

/// Abstract value of a node of the frequency tree.
pub struct Tally {
    /// Transitions counted into this node.
    pub frequency: nat,
    /// Share of the parent's transitions.
    pub ratio: Share,
    /// Symbols seen in this context, in the order they were first seen.
    pub symbols: Seq<char>,
    /// The child of `symbols[i]` is `children[i]`.
    pub children: Seq<Tally>,
}

/// The transitions of `text` between two boundary symbols: one per symbol,
/// and one more from the last symbol back to the boundary.
pub open spec fn transitions(text: Seq<char>, boundary: char) -> Seq<(char, char)> {
    Seq::new(
        text.len() + 1,
        |i: int|
            (
                if i == 0 {
                    boundary
                } else {
                    text[i - 1]
                },
                if i < text.len() {
                    text[i]
                } else {
                    boundary
                },
            ),
    )
}

/// How often the transition `(from, to)` stands in `pairs`.
pub open spec fn occurrences(pairs: Seq<(char, char)>, from: char, to: char) -> nat
    decreases pairs.len(),
{
    if pairs.len() == 0 {
        0
    } else {
        occurrences(pairs.drop_last(), from, to) + if pairs.last() == (from, to) {
            1nat
        } else {
            0nat
        }
    }
}

/// How many transitions of `pairs` start at `from`.
pub open spec fn departures(pairs: Seq<(char, char)>, from: char) -> nat
    decreases pairs.len(),
{
    if pairs.len() == 0 {
        0
    } else {
        departures(pairs.drop_last(), from) + if pairs.last().0 == from {
            1nat
        } else {
            0nat
        }
    }
}

impl Tally {
    /// A node without count and without children.
    pub open spec fn empty() -> Tally {
        Tally { frequency: 0, ratio: Share::zero(), symbols: Seq::empty(), children: Seq::empty() }
    }

    /// Each symbol has one child, no symbol stands twice, and the same holds below.
    pub open spec fn wf(self) -> bool
        decreases self,
    {
        &&& self.ratio.wf()
        &&& self.symbols.len() == self.children.len()
        &&& self.symbols.no_duplicates()
        &&& forall|i: int| 0 <= i < self.children.len() ==> (#[trigger] self.children[i]).wf()
    }

    /// `c` was seen in this context.
    pub open spec fn has(self, c: char) -> bool {
        self.symbols.contains(c)
    }

    /// Position of `c` among the symbols.
    pub open spec fn slot(self, c: char) -> int {
        self.symbols.index_of(c)
    }

    /// The child of `c`.
    pub open spec fn child(self, c: char) -> Tally {
        self.children[self.slot(c)]
    }

    /// Count of the child of `c`, zero where `c` was never seen.
    pub open spec fn frequency_of(self, c: char) -> nat {
        if self.has(c) {
            self.child(c).frequency
        } else {
            0
        }
    }

    /// Share of the child of `c`, zero where `c` was never seen.
    pub open spec fn ratio_of(self, c: char) -> Share {
        if self.has(c) {
            self.child(c).ratio
        } else {
            Share::zero()
        }
    }

    /// What the `i`-th context of this model adds to its divergence from `other`.
    pub open spec fn deviation(self, other: Tally, i: int) -> Deviation {
        Deviation {
            symbol: self.symbols[i],
            own: self.ratio_of(self.symbols[i]),
            other: other.ratio_of(self.symbols[i]),
            weight: self.frequency_of(self.symbols[i]),
        }
    }

    /// The terms of the divergence of this model from `other`: one for each
    /// context of this model, none for a context that only `other` has.
    pub open spec fn deviations(self, other: Tally) -> Seq<Deviation> {
        Seq::new(self.symbols.len(), |i: int| self.deviation(other, i))
    }

    /// The transition from `from` to `to` was seen.
    pub open spec fn has_path(self, from: char, to: char) -> bool {
        self.has(from) && self.child(from).has(to)
    }

    /// Count at the end of the path `from`, `to`.
    pub open spec fn count(self, from: char, to: char) -> nat {
        if self.has(from) {
            self.child(from).frequency_of(to)
        } else {
            0
        }
    }

    /// A node that counts `frequency` and has no children.
    pub open spec fn leaf(frequency: nat) -> Tally {
        Tally { frequency, ..Tally::empty() }
    }

    /// The node with `child` as the child of `c`, in place of the child that
    /// `c` had or appended where it had none.
    pub open spec fn with_child(self, c: char, child: Tally) -> Tally {
        if self.has(c) {
            Tally { children: self.children.update(self.slot(c), child), ..self }
        } else {
            Tally { symbols: self.symbols.push(c), children: self.children.push(child), ..self }
        }
    }

    /// The node with an empty child for `c` appended, unless `c` has one.
    pub open spec fn with_entry(self, c: char) -> Tally {
        if self.has(c) {
            self
        } else {
            Tally {
                symbols: self.symbols.push(c),
                children: self.children.push(Tally::empty()),
                ..self
            }
        }
    }

    /// The node with its own count raised by one.
    pub open spec fn bumped(self) -> Tally {
        Tally { frequency: self.frequency + 1, ..self }
    }

    /// The node after one more occurrence of `c` in this context.
    pub open spec fn incremented(self, c: char) -> Tally {
        let grown = self.with_entry(c);
        let i = grown.slot(c);
        Tally { children: grown.children.update(i, grown.children[i].bumped()), ..grown }
    }

    /// The node after one more transition from `from` to `to`.
    pub open spec fn recorded(self, from: char, to: char) -> Tally {
        let grown = self.with_entry(from);
        let i = grown.slot(from);
        Tally { children: grown.children.update(i, grown.children[i].incremented(to)), ..grown }
    }

    /// The node after the transitions of `pairs`, in order.
    pub open spec fn recorded_all(self, pairs: Seq<(char, char)>) -> Tally
        decreases pairs.len(),
    {
        if pairs.len() == 0 {
            self
        } else {
            self.recorded_all(pairs.drop_last()).recorded(pairs.last().0, pairs.last().1)
        }
    }

    /// No count leaves the machine's counter when `pairs` are recorded.
    pub open spec fn has_room_for(self, pairs: Seq<(char, char)>) -> bool {
        forall|from: char, to: char|
            self.count(from, to) + #[trigger] occurrences(pairs, from, to) <= u64::MAX
    }

    /// The node after reading `text` between two `boundary` symbols.
    pub open spec fn read(self, text: Seq<char>, boundary: char) -> Tally {
        self.recorded_all(transitions(text, boundary))
    }

    /// Number of levels of the tree.
    pub open spec fn height(self) -> nat
        decreases self, 1nat,
    {
        Tally::heights(self.children) + 1
    }

    /// Height of the tallest of `nodes`.
    pub open spec fn heights(nodes: Seq<Tally>) -> nat
        decreases nodes, 0nat,
    {
        if nodes.len() == 0 {
            0
        } else if Tally::heights(nodes.drop_last()) >= nodes.last().height() {
            Tally::heights(nodes.drop_last())
        } else {
            nodes.last().height()
        }
    }

    /// Total of the counts at the leaves.
    pub open spec fn weight(self) -> nat
        decreases self, 1nat,
    {
        if self.children.len() == 0 {
            self.frequency
        } else {
            Tally::weights(self.children)
        }
    }

    /// Total of the weights of `nodes`.
    pub open spec fn weights(nodes: Seq<Tally>) -> nat
        decreases nodes, 0nat,
    {
        if nodes.len() == 0 {
            0
        } else {
            Tally::weights(nodes.drop_last()) + nodes.last().weight()
        }
    }

    /// Total of the counts of `nodes`.
    pub open spec fn frequencies(nodes: Seq<Tally>) -> nat
        decreases nodes.len(),
    {
        if nodes.len() == 0 {
            0
        } else {
            Tally::frequencies(nodes.drop_last()) + nodes.last().frequency
        }
    }

    /// Total of the numerators of the shares of `nodes`.
    pub open spec fn numerators(nodes: Seq<Tally>) -> nat
        decreases nodes.len(),
    {
        if nodes.len() == 0 {
            0
        } else {
            Tally::numerators(nodes.drop_last()) + nodes.last().ratio.num
        }
    }

    /// The tree with the count of every node that has children replaced,
    /// bottom-up, by the total of its children's counts.
    pub open spec fn summed(self) -> Tally
        decreases self, 1nat,
    {
        if self.children.len() == 0 {
            self
        } else {
            let below = Tally::summed_each(self.children);
            Tally { frequency: Tally::frequencies(below), children: below, ..self }
        }
    }

    /// `summed` of each of `nodes`.
    pub open spec fn summed_each(nodes: Seq<Tally>) -> Seq<Tally>
        decreases nodes, 0nat,
    {
        if nodes.len() == 0 {
            Seq::empty()
        } else {
            Tally::summed_each(nodes.drop_last()).push(nodes.last().summed())
        }
    }

    /// The tree with the share of every node below this one set, top-down,
    /// to its count over its parent's count.
    pub open spec fn rated(self) -> Tally
        decreases self, 1nat,
    {
        Tally { children: Tally::rated_each(self.children, self.frequency), ..self }
    }

    /// Each of `nodes` with its share of `whole`, and `rated` below.
    pub open spec fn rated_each(nodes: Seq<Tally>, whole: nat) -> Seq<Tally>
        decreases nodes, 0nat,
    {
        if nodes.len() == 0 {
            Seq::empty()
        } else {
            Tally::rated_each(nodes.drop_last(), whole).push(
                Tally { ratio: Share::of(nodes.last().frequency, whole), ..nodes.last().rated() },
            )
        }
    }

    /// The tree after both passes: counts summed, then shares set.
    pub open spec fn finished(self) -> Tally {
        self.summed().rated()
    }

    /// Every node with children counts what its children count together.
    pub open spec fn is_summed(self) -> bool
        decreases self,
    {
        &&& self.children.len() > 0 ==> self.frequency == Tally::frequencies(self.children)
        &&& forall|i: int|
            0 <= i < self.children.len() ==> (#[trigger] self.children[i]).is_summed()
    }

    /// Every node with children counts what its children count together,
    /// and every child holds its count over its parent's as its share.
    pub open spec fn balanced(self) -> bool
        decreases self,
    {
        &&& self.children.len() > 0 ==> self.frequency == Tally::frequencies(self.children)
        &&& forall|i: int|
            0 <= i < self.children.len() ==> {
                &&& (#[trigger] self.children[i]).ratio == Share::of(
                    self.children[i].frequency,
                    self.frequency,
                )
                &&& self.children[i].balanced()
            }
    }

    /// Total weight of the child of `c`, zero where `c` was never seen.
    pub open spec fn weight_of(self, c: char) -> nat {
        if self.has(c) {
            self.child(c).weight()
        } else {
            0
        }
    }

    /// The shape that reading text gives a model: a root without children
    /// counts nothing, every context has successors, and no successor has
    /// children.
    pub open spec fn is_bigram(self) -> bool {
        &&& self.children.len() == 0 ==> self.frequency == 0
        &&& forall|i: int|
            0 <= i < self.children.len() ==> {
                &&& (#[trigger] self.children[i]).children.len() > 0
                &&& forall|j: int|
                    0 <= j < self.children[i].children.len() ==> (
                    #[trigger] self.children[i].children[j]).children.len() == 0
            }
    }
}

} // verus!
