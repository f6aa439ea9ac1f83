//! What holds of every model and of every key.

use crate::lemmas::{
    lemma_rated_each, lemma_recorded_all, lemma_recorded_all_has, lemma_recorded_all_weight,
    lemma_recorded_all_weight_of, lemma_slot_in_range, lemma_summed_each,
    lemma_summed_frequency, lemma_summed_wf,
};
use crate::message::{lemma_images_in_alphabet, lemma_last_position, lemma_swapped_wf, Substitution};
use crate::model::{departures, occurrences, transitions, Share, Tally};
use vstd::prelude::*;

verus! {

/// Compared with itself a model deviates nowhere: in every term of its
/// divergence from itself the two shares are the same, so each term, and
/// with it the divergence, is zero.
pub proof fn diff_with_itself_is_zero(model: Tally)
    ensures
        forall|i: int|
            0 <= i < model.deviations(model).len() ==> (#[trigger] model.deviations(model)[i]).own
                == model.deviations(model)[i].other,
{
}

/// Lists of nodes with the same counts, place by place, count the same together.
proof fn lemma_frequencies_agree(a: Seq<Tally>, b: Seq<Tally>)
    requires
        a.len() == b.len(),
        forall|i: int| 0 <= i < a.len() ==> a[i].frequency == b[i].frequency,
    ensures
        Tally::frequencies(a) == Tally::frequencies(b),
    decreases a.len(),
{
    if a.len() > 0 {
        lemma_frequencies_agree(a.drop_last(), b.drop_last());
    }
}

/// The first pass leaves every node with children counting what its children count.
proof fn lemma_summed_is_summed(t: Tally)
    ensures
        t.summed().is_summed(),
    decreases t,
{
    if t.children.len() > 0 {
        lemma_summed_each(t.children);
        let s = t.summed();
        assert forall|i: int| 0 <= i < s.children.len() implies (#[trigger] s.children[i]).is_summed() by {
            lemma_summed_is_summed(t.children[i]);
        }
    }
}

/// The second pass turns a summed tree into a balanced one.
proof fn lemma_rated_is_balanced(t: Tally)
    requires
        t.is_summed(),
    ensures
        t.rated().balanced(),
    decreases t,
{
    lemma_rated_each(t.children, t.frequency);
    let r = t.rated();
    lemma_frequencies_agree(r.children, t.children);
    assert forall|i: int| 0 <= i < r.children.len() implies {
        &&& (#[trigger] r.children[i]).ratio == Share::of(r.children[i].frequency, r.frequency)
        &&& r.children[i].balanced()
    } by {
        let c = t.children[i];
        assert(c.is_summed());
        lemma_rated_is_balanced(c);
        lemma_rated_each(c.children, c.frequency);
        assert(r.children[i].children == c.rated().children);
        assert(r.children[i].frequency == c.rated().frequency);
    }
}

/// After `finish` every node with children counts what its children count
/// together, and every node below the root holds its count over its
/// parent's as its share.
pub proof fn finished_is_balanced(model: Tally)
    requires
        model.wf(),
    ensures
        model.finished().balanced(),
{
    lemma_summed_is_summed(model);
    lemma_rated_is_balanced(model.summed());
}

/// In a balanced tree the numerators of the children's shares add up to the parent's count.
proof fn lemma_numerators(nodes: Seq<Tally>, whole: nat)
    requires
        whole > 0,
        forall|i: int|
            0 <= i < nodes.len() ==> (#[trigger] nodes[i]).ratio == Share::of(
                nodes[i].frequency,
                whole,
            ),
    ensures
        Tally::numerators(nodes) == Tally::frequencies(nodes),
    decreases nodes.len(),
{
    if nodes.len() > 0 {
        let init = nodes.drop_last();
        assert forall|i: int| 0 <= i < init.len() implies (#[trigger] init[i]).ratio == Share::of(
            init[i].frequency,
            whole,
        ) by {
            assert(init[i] == nodes[i]);
        }
        lemma_numerators(init, whole);
        assert(nodes.last() == nodes[nodes.len() - 1]);
    }
}

/// The count of a node of a list is at most what the list counts together.
proof fn lemma_frequency_within(nodes: Seq<Tally>, i: int)
    requires
        0 <= i < nodes.len(),
    ensures
        nodes[i].frequency <= Tally::frequencies(nodes),
    decreases nodes.len(),
{
    if i < nodes.len() - 1 {
        lemma_frequency_within(nodes.drop_last(), i);
    }
}

/// The shares of the children of a node add up to one: in a balanced tree,
/// a node that has children and counts more than zero is the common
/// denominator of its children's shares, their numerators add up to its
/// count, and each share lies between zero and one.
pub proof fn shares_of_children_sum_to_one(node: Tally)
    requires
        node.balanced(),
        node.children.len() > 0,
        node.frequency > 0,
    ensures
        Tally::numerators(node.children) == node.frequency,
        forall|i: int|
            0 <= i < node.children.len() ==> (#[trigger] node.children[i]).ratio.den
                == node.frequency,
        forall|i: int| 0 <= i < node.children.len() ==> (#[trigger] node.children[i]).ratio.is_proper(),
{
    lemma_numerators(node.children, node.frequency);
    assert forall|i: int| 0 <= i < node.children.len() implies (
    #[trigger] node.children[i]).ratio.is_proper() by {
        lemma_frequency_within(node.children, i);
    }
}

/// `finish` works level by level: the root counts the weight of the tree
/// and keeps its symbols, and each child is the finished child with its
/// weight over the weight of the tree as its share.
pub proof fn finish_level_by_level(model: Tally)
    requires
        model.wf(),
    ensures
        model.finished().wf(),
        model.finished().frequency == model.weight(),
        model.finished().ratio == model.ratio,
        model.finished().symbols == model.symbols,
        model.finished().children.len() == model.children.len(),
        forall|i: int|
            0 <= i < model.children.len() ==> (#[trigger] model.finished().children[i]) == (Tally {
                ratio: Share::of(model.children[i].weight(), model.weight()),
                ..model.children[i].finished()
            }),
{
    lemma_summed_wf(model);
    lemma_summed_frequency(model);
    let s = model.summed();
    crate::lemmas::lemma_rated_wf(s);
    lemma_rated_each(s.children, s.frequency);
    if model.children.len() > 0 {
        lemma_summed_each(model.children);
        assert forall|i: int| 0 <= i < model.children.len() implies (
        #[trigger] model.finished().children[i]) == (Tally {
            ratio: Share::of(model.children[i].weight(), model.weight()),
            ..model.children[i].finished()
        }) by {
            lemma_summed_frequency(model.children[i]);
        }
    }
}

/// Lists of nodes with the same weights, place by place, weigh the same together.
proof fn lemma_weights_agree(a: Seq<Tally>, b: Seq<Tally>)
    requires
        a.len() == b.len(),
        forall|i: int| 0 <= i < a.len() ==> a[i].weight() == b[i].weight(),
    ensures
        Tally::weights(a) == Tally::weights(b),
    decreases a.len(),
{
    if a.len() > 0 {
        lemma_weights_agree(a.drop_last(), b.drop_last());
    }
}

/// `finish` leaves the counts at the leaves as they are: the tree weighs
/// what it weighed, each node has the children it had, and a model keeps
/// the shape of a model, so that more text can be read and finished again.
pub proof fn finish_keeps_weight_and_shape(model: Tally)
    requires
        model.wf(),
    ensures
        model.finished().weight() == model.weight(),
        model.finished().children.len() == model.children.len(),
        model.is_bigram() ==> model.finished().is_bigram(),
    decreases model,
{
    finish_level_by_level(model);
    let done = model.finished();
    assert forall|i: int| 0 <= i < model.children.len() implies done.children[i].weight()
        == model.children[i].weight() && done.children[i].children.len()
        == model.children[i].children.len() by {
        finish_keeps_weight_and_shape(model.children[i]);
        assert(model.children[i].wf());
        finish_level_by_level(model.children[i]);
    }
    lemma_weights_agree(done.children, model.children);
    if model.is_bigram() {
        assert forall|i: int| 0 <= i < done.children.len() implies {
            &&& (#[trigger] done.children[i]).children.len() > 0
            &&& forall|j: int|
                0 <= j < done.children[i].children.len() ==> (
                #[trigger] done.children[i].children[j]).children.len() == 0
        } by {
            let x = model.children[i];
            assert(x.wf());
            finish_level_by_level(x);
            assert forall|j: int| 0 <= j < done.children[i].children.len() implies (
            #[trigger] done.children[i].children[j]).children.len() == 0 by {
                assert(x.children[j].wf());
                finish_level_by_level(x.children[j]);
            }
        }
    }
}

/// Reading a text adds the number of its transitions, one more than it has
/// symbols, to the weight of a model, and keeps the shape of a model.
pub proof fn read_adds_to_weight(model: Tally, text: Seq<char>, boundary: char)
    requires
        model.wf(),
        model.is_bigram(),
    ensures
        model.read(text, boundary).wf(),
        model.read(text, boundary).is_bigram(),
        model.read(text, boundary).weight() == model.weight() + text.len() + 1,
{
    lemma_recorded_all_weight(model, transitions(text, boundary));
}

/// Reading a text adds to each count the number of times its transition
/// stands among the transitions of the text.
pub proof fn read_counts_transitions(model: Tally, text: Seq<char>, boundary: char)
    requires
        model.wf(),
    ensures
        model.read(text, boundary).wf(),
        forall|from: char, to: char|
            model.read(text, boundary).count(from, to) == model.count(from, to)
                + #[trigger] occurrences(transitions(text, boundary), from, to),
{
    lemma_recorded_all(model, transitions(text, boundary));
}

/// What the finished model of a text holds for the context `a`.
proof fn lemma_finished_context(text: Seq<char>, boundary: char, a: char)
    ensures
        ({
            let pairs = transitions(text, boundary);
            let model = Tally::empty().read(text, boundary).finished();
            &&& model.has(a) <==> departures(pairs, a) > 0
            &&& model.frequency_of(a) == departures(pairs, a)
            &&& model.has(a) ==> model.ratio_of(a) == Share::of(
                departures(pairs, a),
                text.len() + 1,
            )
        }),
{
    let pairs = transitions(text, boundary);
    let raw = Tally::empty().read(text, boundary);
    lemma_recorded_all(Tally::empty(), pairs);
    lemma_recorded_all_weight(Tally::empty(), pairs);
    finish_level_by_level(raw);
    lemma_recorded_all_weight_of(Tally::empty(), pairs, a);
    lemma_recorded_all_has(Tally::empty(), pairs, a, a);
    if raw.has(a) {
        lemma_slot_in_range(raw.symbols, a);
        let i = raw.slot(a);
        assert(raw.children[i].wf());
        finish_level_by_level(raw.children[i]);
    }
}

/// What the finished model of a text holds for the path `a`, `b`.
proof fn lemma_finished_path(text: Seq<char>, boundary: char, a: char, b: char)
    ensures
        ({
            let pairs = transitions(text, boundary);
            let model = Tally::empty().read(text, boundary).finished();
            &&& model.has_path(a, b) <==> occurrences(pairs, a, b) > 0
            &&& model.count(a, b) == occurrences(pairs, a, b)
            &&& model.has_path(a, b) ==> model.child(a).ratio_of(b) == Share::of(
                occurrences(pairs, a, b),
                departures(pairs, a),
            )
        }),
{
    let pairs = transitions(text, boundary);
    let raw = Tally::empty().read(text, boundary);
    lemma_recorded_all(Tally::empty(), pairs);
    lemma_recorded_all_weight(Tally::empty(), pairs);
    finish_level_by_level(raw);
    lemma_recorded_all_weight_of(Tally::empty(), pairs, a);
    lemma_recorded_all_has(Tally::empty(), pairs, a, b);
    if raw.has(a) {
        lemma_slot_in_range(raw.symbols, a);
        let i = raw.slot(a);
        let x = raw.children[i];
        assert(x.wf());
        finish_level_by_level(x);
        if x.has(b) {
            lemma_slot_in_range(x.symbols, b);
            let j = x.slot(b);
            assert(x.children[j].wf());
            assert(x.children[j].children.len() == 0);
            finish_level_by_level(x.children[j]);
        }
    }
}

/// The finished model of a text, in closed form. With `pairs` the
/// transitions of the text: the root counts them all, one more than the
/// text has symbols; a context is seen if a transition starts at it, and
/// counts the transitions that start at it; a path is seen if its
/// transition occurs, and counts its occurrences; and each share is the
/// count of its node over the count of the node above.
pub proof fn finished_model_of_text(text: Seq<char>, boundary: char)
    ensures
        ({
            let pairs = transitions(text, boundary);
            let model = Tally::empty().read(text, boundary).finished();
            &&& model.wf()
            &&& model.frequency == text.len() + 1
            &&& forall|a: char| #[trigger] model.has(a) <==> departures(pairs, a) > 0
            &&& forall|a: char| #[trigger] model.frequency_of(a) == departures(pairs, a)
            &&& forall|a: char|
                model.has(a) ==> #[trigger] model.ratio_of(a) == Share::of(
                    departures(pairs, a),
                    text.len() + 1,
                )
            &&& forall|a: char, b: char| #[trigger]
                model.has_path(a, b) <==> occurrences(pairs, a, b) > 0
            &&& forall|a: char, b: char| #[trigger]
                model.count(a, b) == occurrences(pairs, a, b)
            &&& forall|a: char, b: char|
                model.has_path(a, b) ==> #[trigger] model.child(a).ratio_of(b) == Share::of(
                    occurrences(pairs, a, b),
                    departures(pairs, a),
                )
        }),
{
    let pairs = transitions(text, boundary);
    let raw = Tally::empty().read(text, boundary);
    let model = raw.finished();
    lemma_recorded_all(Tally::empty(), pairs);
    lemma_recorded_all_weight(Tally::empty(), pairs);
    finish_level_by_level(raw);
    assert forall|a: char| #[trigger] model.has(a) <==> departures(pairs, a) > 0 by {
        lemma_finished_context(text, boundary, a);
    }
    assert forall|a: char| #[trigger] model.frequency_of(a) == departures(pairs, a) by {
        lemma_finished_context(text, boundary, a);
    }
    assert forall|a: char| model.has(a) implies #[trigger] model.ratio_of(a) == Share::of(
        departures(pairs, a),
        text.len() + 1,
    ) by {
        lemma_finished_context(text, boundary, a);
    }
    assert forall|a: char, b: char| #[trigger]
        model.has_path(a, b) <==> occurrences(pairs, a, b) > 0 by {
        lemma_finished_path(text, boundary, a, b);
    }
    assert forall|a: char, b: char| #[trigger] model.count(a, b) == occurrences(pairs, a, b) by {
        lemma_finished_path(text, boundary, a, b);
    }
    assert forall|a: char, b: char| model.has_path(a, b) implies #[trigger] model.child(
        a,
    ).ratio_of(b) == Share::of(occurrences(pairs, a, b), departures(pairs, a)) by {
        lemma_finished_path(text, boundary, a, b);
    }
}

/// In an alphabet without duplicates each symbol's place is the one place it stands at.
proof fn lemma_position_unique(key: Substitution, i: int)
    requires
        key.alphabet.no_duplicates(),
        0 <= i < key.alphabet.len(),
    ensures
        key.alphabet.contains(key.alphabet[i]),
        key.position(key.alphabet[i]) == i,
{
    lemma_last_position(key.alphabet, key.alphabet[i]);
    assert(key.alphabet.contains(key.alphabet[i]));
}

/// The mapping of a key over an alphabet of distinct symbols is a
/// bijection of the alphabet: each symbol is the image of exactly one
/// symbol. As making a key and exchanging two images both yield a
/// well-formed key over the same alphabet, this holds after construction
/// and after any number of perturbations.
pub proof fn mapping_is_bijection(key: Substitution)
    requires
        key.wf(),
        key.alphabet.no_duplicates(),
    ensures
        key.is_bijection(),
{
    lemma_images_in_alphabet(key);
    key.alphabet.lemma_multiset_has_no_duplicates();
    key.images.lemma_multiset_has_no_duplicates_conv();
    key.images.to_multiset_ensures();
    key.alphabet.to_multiset_ensures();
    assert forall|s: char| key.alphabet.contains(s) implies #[trigger] key.is_image(s) by {
        assert(key.images.to_multiset().count(s) > 0);
        assert(key.images.contains(s));
        let j = choose|j: int| 0 <= j < key.images.len() && key.images[j] == s;
        lemma_position_unique(key, j);
        let k = key.alphabet[j];
        assert(key.alphabet.contains(k) && key.apply(k) == s);
    }
    assert forall|k1: char, k2: char|
        key.alphabet.contains(k1) && key.alphabet.contains(k2) && #[trigger] key.apply(k1)
            == #[trigger] key.apply(k2) implies k1 == k2 by {
        lemma_last_position(key.alphabet, k1);
        lemma_last_position(key.alphabet, k2);
    }
}

/// However many perturbations a key over an alphabet of distinct symbols
/// goes through, its alphabet stays and its mapping stays a bijection.
pub proof fn perturbations_keep_bijection(key: Substitution, swaps: Seq<(char, char)>)
    requires
        key.wf(),
        key.alphabet.no_duplicates(),
        forall|i: int|
            0 <= i < swaps.len() ==> key.alphabet.contains((#[trigger] swaps[i]).0)
                && key.alphabet.contains(swaps[i].1),
    ensures
        key.swapped_all(swaps).wf(),
        key.swapped_all(swaps).alphabet == key.alphabet,
        key.swapped_all(swaps).is_bijection(),
    decreases swaps.len(),
{
    if swaps.len() > 0 {
        let init = swaps.drop_last();
        assert forall|i: int| 0 <= i < init.len() implies key.alphabet.contains(
            (#[trigger] init[i]).0,
        ) && key.alphabet.contains(init[i].1) by {
            assert(init[i] == swaps[i]);
        }
        perturbations_keep_bijection(key, init);
        let last = swaps[swaps.len() - 1];
        lemma_swapped_wf(key.swapped_all(init), last.0, last.1);
    }
    mapping_is_bijection(key.swapped_all(swaps));
}

/// Exchanging the images of `a` and `b` changes at most these two entries
/// of the mapping: `a` takes the image of `b`, `b` takes the image of `a`,
/// and every other symbol keeps its image.
pub proof fn swap_changes_two_entries(key: Substitution, a: char, b: char)
    requires
        key.wf(),
        key.alphabet.contains(a),
        key.alphabet.contains(b),
    ensures
        key.swapped(a, b).apply(a) == key.apply(b),
        key.swapped(a, b).apply(b) == key.apply(a),
        forall|c: char| c != a && c != b ==> #[trigger] key.swapped(a, b).apply(c) == key.apply(c),
{
    lemma_images_in_alphabet(key);
    lemma_last_position(key.alphabet, a);
    lemma_last_position(key.alphabet, b);
    assert forall|c: char| c != a && c != b implies #[trigger] key.swapped(a, b).apply(c)
        == key.apply(c) by {
        lemma_last_position(key.alphabet, c);
    }
}

/// The symbol whose place `c` takes when `a` and `b` change places.
spec fn exchanged(a: char, b: char, c: char) -> char {
    if c == a {
        b
    } else if c == b {
        a
    } else {
        c
    }
}

/// After an exchange a symbol has the image that its counterpart had before.
proof fn lemma_swap_apply(key: Substitution, a: char, b: char, c: char)
    requires
        key.wf(),
        key.alphabet.contains(a),
        key.alphabet.contains(b),
    ensures
        key.swapped(a, b).apply(c) == key.apply(exchanged(a, b, c)),
        key.swapped(a, b).alphabet == key.alphabet,
        key.alphabet.contains(c) == key.alphabet.contains(exchanged(a, b, c)),
{
    swap_changes_two_entries(key, a, b);
}

/// Exchanging two images of a bijection leaves a bijection.
pub proof fn swap_keeps_bijection(key: Substitution, a: char, b: char)
    requires
        key.wf(),
        key.is_bijection(),
        key.alphabet.contains(a),
        key.alphabet.contains(b),
    ensures
        key.swapped(a, b).wf(),
        key.swapped(a, b).is_bijection(),
{
    lemma_swapped_wf(key, a, b);
    let next = key.swapped(a, b);
    assert forall|s: char| next.alphabet.contains(s) implies #[trigger] next.is_image(s) by {
        lemma_swap_apply(key, a, b, s);
        assert(key.is_image(s));
        let k0 = choose|k: char| key.alphabet.contains(k) && #[trigger] key.apply(k) == s;
        let k = exchanged(a, b, k0);
        lemma_swap_apply(key, a, b, k);
        lemma_swap_apply(key, a, b, k0);
        assert(exchanged(a, b, k) == k0);
        assert(next.alphabet.contains(k) && next.apply(k) == s);
    }
    assert forall|k1: char, k2: char|
        next.alphabet.contains(k1) && next.alphabet.contains(k2) && #[trigger] next.apply(k1)
            == #[trigger] next.apply(k2) implies k1 == k2 by {
        lemma_swap_apply(key, a, b, k1);
        lemma_swap_apply(key, a, b, k2);
        let j1 = exchanged(a, b, k1);
        let j2 = exchanged(a, b, k2);
        assert(key.alphabet.contains(j1) && key.alphabet.contains(j2));
        assert(key.apply(j1) == key.apply(j2));
        assert(j1 == j2);
    }
}

/// Deciphering a text with a key and with the key after an exchange of the
/// images of `a` and `b` differs only where `a` or `b` stands in the text.
pub proof fn swap_shows_only_at_swapped_symbols(
    key: Substitution,
    a: char,
    b: char,
    text: Seq<char>,
)
    requires
        key.wf(),
        key.alphabet.contains(a),
        key.alphabet.contains(b),
    ensures
        key.swapped(a, b).decipher(text).len() == key.decipher(text).len(),
        forall|i: int|
            0 <= i < text.len() && text[i] != a && text[i] != b ==> #[trigger] key.swapped(
                a,
                b,
            ).decipher(text)[i] == key.decipher(text)[i],
{
    swap_changes_two_entries(key, a, b);
}

/// A symbol outside the alphabet is deciphered to itself, alone and within a text.
pub proof fn decipher_keeps_foreign_symbols(key: Substitution, text: Seq<char>)
    ensures
        forall|c: char| !key.alphabet.contains(c) ==> #[trigger] key.apply(c) == c,
        key.decipher(text).len() == text.len(),
        forall|i: int|
            0 <= i < text.len() && !key.alphabet.contains(text[i]) ==> #[trigger] key.decipher(
                text,
            )[i] == text[i],
{
}

} // verus!
