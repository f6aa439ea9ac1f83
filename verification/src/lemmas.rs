//! Facts about the model that the executable code and the laws rest on.

use crate::model::{departures, occurrences, Tally};
use vstd::prelude::*;

verus! {

/// In a list without duplicates, a symbol's position is the one place it stands.
pub(crate) proof fn lemma_slot_unique(symbols: Seq<char>, i: int)
    requires
        symbols.no_duplicates(),
        0 <= i < symbols.len(),
    ensures
        symbols.contains(symbols[i]),
        symbols.index_of(symbols[i]) == i,
{
    assert(symbols.contains(symbols[i]));
    let k = symbols.index_of(symbols[i]);
    assert(0 <= k < symbols.len() && symbols[k] == symbols[i]);
}

/// A symbol that is present has a position within the list.
pub(crate) proof fn lemma_slot_in_range(symbols: Seq<char>, c: char)
    requires
        symbols.contains(c),
    ensures
        0 <= symbols.index_of(c) < symbols.len(),
        symbols[symbols.index_of(c)] == c,
{
}

/// Adding an entry keeps the node well formed and puts `c` in reach.
pub(crate) proof fn lemma_with_entry(t: Tally, c: char)
    requires
        t.wf(),
    ensures
        t.with_entry(c).wf(),
        t.with_entry(c).has(c),
        0 <= t.with_entry(c).slot(c) < t.with_entry(c).children.len(),
        !t.has(c) ==> t.with_entry(c).slot(c) == t.symbols.len(),
        !t.has(c) ==> t.with_entry(c).child(c) == Tally::empty(),
        t.has(c) ==> t.with_entry(c) == t,
        forall|d: char| d != c ==> t.with_entry(c).has(d) == t.has(d),
        forall|d: char| d != c && t.has(d) ==> t.with_entry(c).slot(d) == t.slot(d),
{
    let g = t.with_entry(c);
    if t.has(c) {
        lemma_slot_in_range(t.symbols, c);
    } else {
        assert(g.symbols.no_duplicates()) by {
            assert forall|i: int, j: int|
                0 <= i < g.symbols.len() && 0 <= j < g.symbols.len() && i != j implies g.symbols[i]
                != g.symbols[j] by {
                if i < t.symbols.len() {
                    assert(t.symbols[i] == g.symbols[i]);
                    assert(t.symbols.contains(g.symbols[i]));
                }
                if j < t.symbols.len() {
                    assert(t.symbols[j] == g.symbols[j]);
                    assert(t.symbols.contains(g.symbols[j]));
                }
            }
        }
        assert(Tally::empty().wf());
        assert(g.wf()) by {
            assert forall|i: int| 0 <= i < g.children.len() implies (#[trigger] g.children[i]).wf() by {
                if i < t.children.len() {
                    assert(g.children[i] == t.children[i]);
                }
            }
        }
        lemma_slot_unique(g.symbols, t.symbols.len() as int);
        assert(g.symbols[t.symbols.len() as int] == c);
        assert forall|d: char| d != c implies g.has(d) == t.has(d) by {
            if t.has(d) {
                let k = t.symbols.index_of(d);
                assert(g.symbols[k] == d);
            }
            if g.has(d) {
                let k = g.symbols.index_of(d);
                assert(t.symbols[k] == d);
            }
        }
        assert forall|d: char| d != c && t.has(d) implies g.slot(d) == t.slot(d) by {
            let k = t.symbols.index_of(d);
            assert(g.symbols[k] == d);
            lemma_slot_unique(g.symbols, k);
        }
    }
}

/// Setting a well-formed child keeps the node well formed.
pub(crate) proof fn lemma_with_child_wf(t: Tally, c: char, child: Tally)
    requires
        t.wf(),
        child.wf(),
    ensures
        t.with_child(c, child).wf(),
        t.with_child(c, child).has(c),
        t.with_child(c, child).child(c) == child,
{
    let u = t.with_child(c, child);
    if t.has(c) {
        lemma_slot_in_range(t.symbols, c);
        lemma_update_child_wf(t, t.slot(c), child);
    } else {
        lemma_with_entry(t, c);
        let g = t.with_entry(c);
        assert(u.symbols == g.symbols);
        lemma_update_child_wf(g, g.slot(c), child);
        assert(u.children =~= g.children.update(g.slot(c), child));
    }
}

/// Replacing one child by a well-formed one keeps the node well formed.
pub(crate) proof fn lemma_update_child_wf(t: Tally, i: int, child: Tally)
    requires
        t.wf(),
        0 <= i < t.children.len(),
        child.wf(),
    ensures
        (Tally { children: t.children.update(i, child), ..t }).wf(),
{
    let u = Tally { children: t.children.update(i, child), ..t };
    assert forall|j: int| 0 <= j < u.children.len() implies (#[trigger] u.children[j]).wf() by {
        if j != i {
            assert(u.children[j] == t.children[j]);
        }
    }
}

/// Counting one more occurrence keeps the node well formed.
pub(crate) proof fn lemma_incremented_wf(t: Tally, c: char)
    requires
        t.wf(),
    ensures
        t.incremented(c).wf(),
{
    lemma_with_entry(t, c);
    let g = t.with_entry(c);
    let i = g.slot(c);
    assert(g.children[i].wf());
    assert(g.children[i].bumped().wf()) by {
        let b = g.children[i].bumped();
        assert forall|j: int| 0 <= j < b.children.len() implies (#[trigger] b.children[j]).wf() by {
            assert(b.children[j] == g.children[i].children[j]);
        }
    }
    lemma_update_child_wf(g, i, g.children[i].bumped());
}

/// Recording one more transition keeps the tree well formed.
pub(crate) proof fn lemma_recorded_wf(t: Tally, from: char, to: char)
    requires
        t.wf(),
    ensures
        t.recorded(from, to).wf(),
{
    lemma_with_entry(t, from);
    let g = t.with_entry(from);
    let i = g.slot(from);
    assert(g.children[i].wf());
    lemma_incremented_wf(g.children[i], to);
    lemma_update_child_wf(g, i, g.children[i].incremented(to));
}

/// One more occurrence of `c` raises the count of `c` by one and no other.
pub(crate) proof fn lemma_incremented_frequency(t: Tally, c: char, b: char)
    requires
        t.wf(),
    ensures
        t.incremented(c).frequency_of(b) == t.frequency_of(b) + if b == c {
            1nat
        } else {
            0nat
        },
{
    lemma_with_entry(t, c);
    let g = t.with_entry(c);
    let i = g.slot(c);
    let m = t.incremented(c);
    assert(m.symbols == g.symbols);
    if b == c {
        assert(m.children[i] == g.children[i].bumped());
    } else {
        if t.has(b) {
            lemma_slot_in_range(t.symbols, b);
            let k = t.slot(b);
            assert(g.slot(b) == k);
            assert(k != i);
            assert(m.children[k] == t.children[k]);
        }
    }
}

/// One more transition raises the count of that transition by one and no other.
pub(crate) proof fn lemma_recorded_count(t: Tally, from: char, to: char, a: char, b: char)
    requires
        t.wf(),
    ensures
        t.recorded(from, to).count(a, b) == t.count(a, b) + if a == from && b == to {
            1nat
        } else {
            0nat
        },
{
    lemma_with_entry(t, from);
    let g = t.with_entry(from);
    let i = g.slot(from);
    let r = t.recorded(from, to);
    assert(r.symbols == g.symbols);
    if a == from {
        assert(r.children[i] == g.children[i].incremented(to));
        assert(g.children[i].wf());
        lemma_incremented_frequency(g.children[i], to, b);
        if !t.has(from) {
            assert(g.children[i] == Tally::empty());
            assert(!Tally::empty().has(b));
        }
    } else {
        if t.has(a) {
            lemma_slot_in_range(t.symbols, a);
            let k = t.slot(a);
            assert(g.slot(a) == k);
            assert(k != i);
            assert(r.children[k] == t.children[k]);
        }
    }
}

/// Recording a list of transitions keeps the tree well formed and raises
/// each count by the number of times its transition stands in the list.
pub(crate) proof fn lemma_recorded_all(t: Tally, pairs: Seq<(char, char)>)
    requires
        t.wf(),
    ensures
        t.recorded_all(pairs).wf(),
        forall|a: char, b: char|
            t.recorded_all(pairs).count(a, b) == t.count(a, b) + #[trigger] occurrences(
                pairs,
                a,
                b,
            ),
    decreases pairs.len(),
{
    if pairs.len() > 0 {
        let init = pairs.drop_last();
        let last = pairs.last();
        lemma_recorded_all(t, init);
        let u = t.recorded_all(init);
        lemma_recorded_wf(u, last.0, last.1);
        assert forall|a: char, b: char|
            t.recorded_all(pairs).count(a, b) == t.count(a, b) + #[trigger] occurrences(
                pairs,
                a,
                b,
            ) by {
            lemma_recorded_count(u, last.0, last.1, a, b);
            assert(u.count(a, b) == t.count(a, b) + occurrences(init, a, b));
        }
    }
}

/// A prefix of a list holds each transition at most as often as the list.
pub(crate) proof fn lemma_occurrences_prefix(pairs: Seq<(char, char)>, n: int, a: char, b: char)
    requires
        0 <= n <= pairs.len(),
    ensures
        occurrences(pairs.take(n), a, b) <= occurrences(pairs, a, b),
    decreases pairs.len(),
{
    if n < pairs.len() {
        lemma_occurrences_prefix(pairs.drop_last(), n, a, b);
        assert(pairs.drop_last().take(n) == pairs.take(n));
    } else {
        assert(pairs.take(n) == pairs);
    }
}

/// Taking one more transition of a list adds that transition's occurrence.
pub(crate) proof fn lemma_occurrences_step(pairs: Seq<(char, char)>, n: int, a: char, b: char)
    requires
        0 <= n < pairs.len(),
    ensures
        occurrences(pairs.take(n + 1), a, b) == occurrences(pairs.take(n), a, b) + if pairs[n] == (
            a,
            b,
        ) {
            1nat
        } else {
            0nat
        },
{
    assert(pairs.take(n + 1).drop_last() == pairs.take(n));
    assert(pairs.take(n + 1).last() == pairs[n]);
}

/// No node of a list is taller than the list's tallest.
pub(crate) proof fn lemma_heights(nodes: Seq<Tally>, i: int)
    requires
        0 <= i < nodes.len(),
    ensures
        nodes[i].height() <= Tally::heights(nodes),
    decreases nodes.len(),
{
    if i < nodes.len() - 1 {
        lemma_heights(nodes.drop_last(), i);
    }
}

/// Appending a node adds its weight.
pub(crate) proof fn lemma_weights_push(nodes: Seq<Tally>, x: Tally)
    ensures
        Tally::weights(nodes.push(x)) == Tally::weights(nodes) + x.weight(),
{
    assert(nodes.push(x).drop_last() == nodes);
}

/// Replacing a node exchanges its weight for the new node's.
pub(crate) proof fn lemma_weights_update(nodes: Seq<Tally>, i: int, x: Tally)
    requires
        0 <= i < nodes.len(),
    ensures
        Tally::weights(nodes.update(i, x)) + nodes[i].weight() == Tally::weights(nodes)
            + x.weight(),
    decreases nodes.len(),
{
    let updated = nodes.update(i, x);
    if i == nodes.len() - 1 {
        assert(updated.drop_last() == nodes.drop_last());
    } else {
        lemma_weights_update(nodes.drop_last(), i, x);
        assert(updated.drop_last() == nodes.drop_last().update(i, x));
    }
}

/// One more occurrence in a context whose successors are leaves adds one to its weight.
pub(crate) proof fn lemma_incremented_weight(t: Tally, c: char)
    requires
        t.wf(),
        t.children.len() == 0 ==> t.frequency == 0,
        forall|j: int| 0 <= j < t.children.len() ==> (#[trigger] t.children[j]).children.len() == 0,
    ensures
        t.incremented(c).weight() == t.weight() + 1,
        t.incremented(c).children.len() > 0,
        forall|j: int|
            0 <= j < t.incremented(c).children.len() ==> (#[trigger] t.incremented(
                c,
            ).children[j]).children.len() == 0,
{
    lemma_with_entry(t, c);
    let g = t.with_entry(c);
    let i = g.slot(c);
    let m = t.incremented(c);
    if !t.has(c) {
        lemma_weights_push(t.children, Tally::empty());
        assert(Tally::weights(Seq::<Tally>::empty()) == 0);
    }
    assert(Tally::weights(g.children) == t.weight());
    lemma_weights_update(g.children, i, g.children[i].bumped());
    assert(g.children[i].children.len() == 0);
    assert forall|j: int| 0 <= j < m.children.len() implies (#[trigger] m.children[j]).children.len()
        == 0 by {
        if j != i {
            assert(m.children[j] == g.children[j]);
        }
    }
}

/// One more transition adds one to the weight of a model and keeps its shape.
pub(crate) proof fn lemma_recorded_weight(t: Tally, from: char, to: char)
    requires
        t.wf(),
        t.is_bigram(),
    ensures
        t.recorded(from, to).is_bigram(),
        t.recorded(from, to).weight() == t.weight() + 1,
{
    lemma_with_entry(t, from);
    let g = t.with_entry(from);
    let i = g.slot(from);
    let r = t.recorded(from, to);
    if !t.has(from) {
        lemma_weights_push(t.children, Tally::empty());
        assert(Tally::weights(Seq::<Tally>::empty()) == 0);
    }
    assert(Tally::weights(g.children) == t.weight());
    assert(g.children[i].wf());
    if t.has(from) {
        assert(g.children[i] == t.children[i]);
    } else {
        assert(g.children[i] == Tally::empty());
    }
    lemma_incremented_weight(g.children[i], to);
    lemma_weights_update(g.children, i, g.children[i].incremented(to));
    assert forall|k: int| 0 <= k < r.children.len() implies {
        &&& (#[trigger] r.children[k]).children.len() > 0
        &&& forall|j: int|
            0 <= j < r.children[k].children.len() ==> (#[trigger] r.children[k].children[j]).children.len()
                == 0
    } by {
        if k != i {
            assert(r.children[k] == g.children[k]);
            assert(g.children[k] == t.children[k]);
        }
    }
}

/// Recording a list of transitions adds its length to the weight of a model
/// and keeps its shape.
pub(crate) proof fn lemma_recorded_all_weight(t: Tally, pairs: Seq<(char, char)>)
    requires
        t.wf(),
        t.is_bigram(),
    ensures
        t.recorded_all(pairs).wf(),
        t.recorded_all(pairs).is_bigram(),
        t.recorded_all(pairs).weight() == t.weight() + pairs.len(),
    decreases pairs.len(),
{
    if pairs.len() > 0 {
        lemma_recorded_all_weight(t, pairs.drop_last());
        let u = t.recorded_all(pairs.drop_last());
        lemma_recorded_wf(u, pairs.last().0, pairs.last().1);
        lemma_recorded_weight(u, pairs.last().0, pairs.last().1);
    }
}

/// One more transition adds one to the weight of the context it starts at and to no other.
pub(crate) proof fn lemma_recorded_weight_of(t: Tally, from: char, to: char, a: char)
    requires
        t.wf(),
        t.is_bigram(),
    ensures
        t.recorded(from, to).weight_of(a) == t.weight_of(a) + if a == from {
            1nat
        } else {
            0nat
        },
{
    lemma_with_entry(t, from);
    let g = t.with_entry(from);
    let i = g.slot(from);
    let r = t.recorded(from, to);
    assert(r.symbols == g.symbols);
    if a == from {
        assert(g.children[i].wf());
        if t.has(from) {
            assert(g.children[i] == t.children[i]);
        } else {
            assert(g.children[i] == Tally::empty());
        }
        lemma_incremented_weight(g.children[i], to);
        assert(r.children[i] == g.children[i].incremented(to));
    } else {
        if t.has(a) {
            lemma_slot_in_range(t.symbols, a);
            let k = t.slot(a);
            assert(g.slot(a) == k);
            assert(k != i);
            assert(r.children[k] == t.children[k]);
        }
    }
}

/// Recording a list of transitions adds to the weight of each context the
/// number of transitions that start at it.
pub(crate) proof fn lemma_recorded_all_weight_of(t: Tally, pairs: Seq<(char, char)>, a: char)
    requires
        t.wf(),
        t.is_bigram(),
    ensures
        t.recorded_all(pairs).weight_of(a) == t.weight_of(a) + departures(pairs, a),
    decreases pairs.len(),
{
    if pairs.len() > 0 {
        lemma_recorded_all_weight_of(t, pairs.drop_last(), a);
        lemma_recorded_all_weight(t, pairs.drop_last());
        lemma_recorded_weight_of(t.recorded_all(pairs.drop_last()), pairs.last().0, pairs.last().1, a);
    }
}

/// One more transition makes its context and its path seen, and no other.
pub(crate) proof fn lemma_recorded_has(t: Tally, from: char, to: char, a: char, b: char)
    requires
        t.wf(),
    ensures
        t.recorded(from, to).has(a) <==> t.has(a) || a == from,
        t.recorded(from, to).has_path(a, b) <==> t.has_path(a, b) || (a == from && b == to),
{
    lemma_with_entry(t, from);
    let g = t.with_entry(from);
    let i = g.slot(from);
    let r = t.recorded(from, to);
    assert(r.symbols == g.symbols);
    if a == from {
        assert(g.children[i].wf());
        lemma_with_entry(g.children[i], to);
        let x = g.children[i];
        assert(r.children[i] == x.incremented(to));
        assert(x.incremented(to).symbols == x.with_entry(to).symbols);
        if t.has(from) {
            assert(x == t.children[i]);
        } else {
            assert(x == Tally::empty());
            assert(!Tally::empty().has(b));
        }
    } else {
        if t.has(a) {
            lemma_slot_in_range(t.symbols, a);
            let k = t.slot(a);
            assert(g.slot(a) == k);
            assert(k != i);
            assert(r.children[k] == t.children[k]);
        }
    }
}

/// After a list of transitions, a context is seen if it was or a transition
/// starts at it, and a path is seen if it was or its transition occurs.
pub(crate) proof fn lemma_recorded_all_has(t: Tally, pairs: Seq<(char, char)>, a: char, b: char)
    requires
        t.wf(),
    ensures
        t.recorded_all(pairs).has(a) <==> t.has(a) || departures(pairs, a) > 0,
        t.recorded_all(pairs).has_path(a, b) <==> t.has_path(a, b) || occurrences(pairs, a, b) > 0,
    decreases pairs.len(),
{
    if pairs.len() > 0 {
        lemma_recorded_all_has(t, pairs.drop_last(), a, b);
        lemma_recorded_all(t, pairs.drop_last());
        lemma_recorded_has(t.recorded_all(pairs.drop_last()), pairs.last().0, pairs.last().1, a, b);
    }
}

/// A list holds each transition at most as often as it is long.
pub(crate) proof fn lemma_occurrences_bounded(pairs: Seq<(char, char)>, a: char, b: char)
    ensures
        occurrences(pairs, a, b) <= pairs.len(),
    decreases pairs.len(),
{
    if pairs.len() > 0 {
        lemma_occurrences_bounded(pairs.drop_last(), a, b);
    }
}

/// `summed_each` works child by child.
pub(crate) proof fn lemma_summed_each(nodes: Seq<Tally>)
    ensures
        Tally::summed_each(nodes).len() == nodes.len(),
        forall|i: int|
            0 <= i < nodes.len() ==> (#[trigger] Tally::summed_each(nodes)[i]) == nodes[i].summed(),
    decreases nodes.len(),
{
    if nodes.len() > 0 {
        lemma_summed_each(nodes.drop_last());
    }
}

/// `rated_each` works child by child.
pub(crate) proof fn lemma_rated_each(nodes: Seq<Tally>, whole: nat)
    ensures
        Tally::rated_each(nodes, whole).len() == nodes.len(),
        forall|i: int|
            0 <= i < nodes.len() ==> (#[trigger] Tally::rated_each(nodes, whole)[i]) == (Tally {
                ratio: crate::model::Share::of(nodes[i].frequency, whole),
                ..nodes[i].rated()
            }),
    decreases nodes.len(),
{
    if nodes.len() > 0 {
        lemma_rated_each(nodes.drop_last(), whole);
    }
}

/// The weights of a prefix grow by the weight of the next node.
pub(crate) proof fn lemma_weights_step(nodes: Seq<Tally>, n: int)
    requires
        0 <= n < nodes.len(),
    ensures
        Tally::weights(nodes.take(n + 1)) == Tally::weights(nodes.take(n)) + nodes[n].weight(),
{
    assert(nodes.take(n + 1).drop_last() == nodes.take(n));
    assert(nodes.take(n + 1).last() == nodes[n]);
}

/// A prefix weighs at most as much as the whole list.
pub(crate) proof fn lemma_weights_prefix(nodes: Seq<Tally>, n: int)
    requires
        0 <= n <= nodes.len(),
    ensures
        Tally::weights(nodes.take(n)) <= Tally::weights(nodes),
    decreases nodes.len(),
{
    if n < nodes.len() {
        lemma_weights_prefix(nodes.drop_last(), n);
        assert(nodes.drop_last().take(n) == nodes.take(n));
    } else {
        assert(nodes.take(n) == nodes);
    }
}

/// The counts of a prefix grow by the count of the next node.
pub(crate) proof fn lemma_frequencies_step(nodes: Seq<Tally>, n: int)
    requires
        0 <= n < nodes.len(),
    ensures
        Tally::frequencies(nodes.take(n + 1)) == Tally::frequencies(nodes.take(n))
            + nodes[n].frequency,
{
    assert(nodes.take(n + 1).drop_last() == nodes.take(n));
    assert(nodes.take(n + 1).last() == nodes[n]);
}

/// After the first pass a node counts what its leaves weigh.
pub(crate) proof fn lemma_summed_frequency(t: Tally)
    ensures
        t.summed().frequency == t.weight(),
    decreases t, 1nat,
{
    if t.children.len() > 0 {
        lemma_summed_each_frequencies(t.children);
    }
}

/// After the first pass a list of nodes counts what their leaves weigh.
pub(crate) proof fn lemma_summed_each_frequencies(nodes: Seq<Tally>)
    ensures
        Tally::frequencies(Tally::summed_each(nodes)) == Tally::weights(nodes),
    decreases nodes, 0nat,
{
    if nodes.len() > 0 {
        lemma_summed_each_frequencies(nodes.drop_last());
        lemma_summed_frequency(nodes.last());
        let s = Tally::summed_each(nodes);
        assert(s.drop_last() == Tally::summed_each(nodes.drop_last()));
        assert(s.last() == nodes.last().summed());
    }
}

/// The first pass keeps the tree well formed and its symbols in place.
pub(crate) proof fn lemma_summed_wf(t: Tally)
    requires
        t.wf(),
    ensures
        t.summed().wf(),
        t.summed().symbols == t.symbols,
        t.summed().ratio == t.ratio,
        t.summed().children.len() == t.children.len(),
    decreases t,
{
    if t.children.len() > 0 {
        lemma_summed_each(t.children);
        let s = t.summed();
        assert forall|i: int| 0 <= i < s.children.len() implies (#[trigger] s.children[i]).wf() by {
            lemma_summed_wf(t.children[i]);
        }
    }
}

/// The second pass keeps the tree well formed, its symbols in place and its counts.
pub(crate) proof fn lemma_rated_wf(t: Tally)
    requires
        t.wf(),
    ensures
        t.rated().wf(),
        t.rated().symbols == t.symbols,
        t.rated().frequency == t.frequency,
        t.rated().ratio == t.ratio,
        t.rated().children.len() == t.children.len(),
    decreases t,
{
    lemma_rated_each(t.children, t.frequency);
    let r = t.rated();
    assert forall|i: int| 0 <= i < r.children.len() implies (#[trigger] r.children[i]).wf() by {
        lemma_rated_wf(t.children[i]);
    }
}

} // verus!
