//! Substitution keys: a mapping of an alphabet onto itself, its random
//! neighbours, and the deciphering of text.

use crate::random::{clone_generator, draw_symbol};
use crate::text::symbols_of;
use crate::utils::random_lookup;
use rand_pcg::Mcg128Xsl64;
use vstd::pervasive::unreached;
use vstd::prelude::*;
use vstd::std_specs::iter::IteratorSpec;

verus! {

/// Last place at which `c` stands in `symbols`, or -1 where it stands nowhere.
pub open spec fn last_position(symbols: Seq<char>, c: char) -> int
    decreases symbols.len(),
{
    if symbols.len() == 0 {
        -1
    } else if symbols.last() == c {
        symbols.len() - 1
    } else {
        last_position(symbols.drop_last(), c)
    }
}

/// Abstract value of a key: the symbol at each place of `alphabet` is
/// replaced by the symbol at the same place of `images`.
pub struct Substitution {
    pub alphabet: Seq<char>,
    pub images: Seq<char>,
}

impl Substitution {
    /// The alphabet is not empty and the images are the alphabet in another order.
    pub open spec fn wf(self) -> bool {
        &&& self.alphabet.len() > 0
        &&& self.images.to_multiset() == self.alphabet.to_multiset()
    }

    /// The place that decides what `c` is replaced by: where a symbol stands
    /// more than once in the alphabet, its last place.
    pub open spec fn position(self, c: char) -> int {
        last_position(self.alphabet, c)
    }

    /// What `c` is replaced by: its image where the alphabet holds it, else `c` itself.
    pub open spec fn apply(self, c: char) -> char {
        if self.alphabet.contains(c) {
            self.images[self.position(c)]
        } else {
            c
        }
    }

    /// `text` with each symbol replaced.
    pub open spec fn decipher(self, text: Seq<char>) -> Seq<char> {
        Seq::new(text.len(), |i: int| self.apply(text[i]))
    }

    /// The key with the images of `a` and `b` exchanged.
    pub open spec fn swapped(self, a: char, b: char) -> Substitution {
        let i = self.position(a);
        let j = self.position(b);
        Substitution {
            images: self.images.update(i, self.images[j]).update(j, self.images[i]),
            ..self
        }
    }

    /// The key after the exchanges of `swaps`, in order.
    pub open spec fn swapped_all(self, swaps: Seq<(char, char)>) -> Substitution
        decreases swaps.len(),
    {
        if swaps.len() == 0 {
            self
        } else {
            self.swapped_all(swaps.drop_last()).swapped(swaps.last().0, swaps.last().1)
        }
    }

    /// `s` is the image of a symbol of the alphabet.
    pub open spec fn is_image(self, s: char) -> bool {
        exists|k: char| self.alphabet.contains(k) && #[trigger] self.apply(k) == s
    }

    /// Each symbol of the alphabet is the image of exactly one symbol of the alphabet.
    pub open spec fn is_bijection(self) -> bool {
        &&& forall|s: char| self.alphabet.contains(s) ==> #[trigger] self.is_image(s)
        &&& forall|k1: char, k2: char|
            self.alphabet.contains(k1) && self.alphabet.contains(k2) && #[trigger] self.apply(k1)
                == #[trigger] self.apply(k2) ==> k1 == k2
    }
}

/// Where `c` stands in `symbols`, its last position is that of its last occurrence.
pub(crate) proof fn lemma_last_position(symbols: Seq<char>, c: char)
    ensures
        symbols.contains(c) <==> last_position(symbols, c) >= 0,
        -1 <= last_position(symbols, c) < symbols.len(),
        last_position(symbols, c) >= 0 ==> symbols[last_position(symbols, c)] == c,
        forall|j: int| last_position(symbols, c) < j < symbols.len() ==> symbols[j] != c,
    decreases symbols.len(),
{
    if symbols.len() > 0 {
        let init = symbols.drop_last();
        lemma_last_position(init, c);
        if symbols.last() == c {
            assert(symbols[symbols.len() - 1] == c);
        } else {
            if symbols.contains(c) {
                let k = choose|k: int| 0 <= k < symbols.len() && symbols[k] == c;
                assert(init[k] == c);
            }
            if init.contains(c) {
                let k = choose|k: int| 0 <= k < init.len() && init[k] == c;
                assert(symbols[k] == c);
            }
            let p = last_position(init, c);
            if p >= 0 {
                assert(symbols[p] == init[p]);
            }
            assert forall|j: int| p < j < symbols.len() implies symbols[j] != c by {
                if j < init.len() {
                    assert(symbols[j] == init[j]);
                }
            }
        }
    }
}

/// Why a key could not be made.
#[derive(Clone, Copy, Debug, PartialEq, Eq, Structural)]
pub enum KeyError {
    /// The alphabet holds no symbol: no mapping can be formed and no symbol drawn.
    EmptyAlphabet,
}

/// A candidate substitution over an alphabet, with the random source that
/// its initial mapping and its neighbours are drawn from.
#[derive(Debug)]
pub struct CipherKey {
    alphabet: Vec<char>,
    key: Vec<char>,
    rng: Mcg128Xsl64,
}

impl View for CipherKey {
    type V = Substitution;

    closed spec fn view(&self) -> Substitution {
        Substitution { alphabet: self.alphabet@, images: self.key@ }
    }
}

impl Clone for CipherKey {
    /// A copy with the same mapping and a copy of the random source.
    fn clone(&self) -> (copy: CipherKey)
        ensures
            copy@ == self@,
    {
        let alphabet = self.alphabet.clone();
        let key = self.key.clone();
        assert(alphabet@ =~= self.alphabet@);
        assert(key@ =~= self.key@);
        CipherKey { alphabet, key, rng: clone_generator(&self.rng) }
    }
}

impl CipherKey {
    /// The key is valid: its model is well formed.
    pub open spec fn wf(&self) -> bool {
        self@.wf()
    }

    /// A key over the symbols of `chars`, in their order, with a mapping
    /// drawn from `rng`: the images are the alphabet, shuffled. An empty
    /// alphabet is refused. Where a symbol stands more than once in `chars`,
    /// its last place decides its image.
    pub fn new(chars: &str, rng: Mcg128Xsl64) -> (made: Result<CipherKey, KeyError>)
        ensures
            match made {
                Ok(key) => chars@.len() > 0 && key.wf() && key@.alphabet == chars@,
                Err(e) => chars@.len() == 0 && e == KeyError::EmptyAlphabet,
            },
    {
        let alphabet = symbols_of(chars);
        if alphabet.len() == 0 {
            return Err(KeyError::EmptyAlphabet);
        }
        let mut rng = rng;
        let key = random_lookup(&alphabet, &mut rng);
        Ok(CipherKey { alphabet, key, rng })
    }

    /// The symbols of the alphabet, in order.
    pub fn alphabet(&self) -> (symbols: Vec<char>)
        ensures
            symbols@ == self@.alphabet,
    {
        let symbols = self.alphabet.clone();
        assert(symbols@ =~= self.alphabet@);
        symbols
    }

    /// The images, in the order of the alphabet.
    pub fn images(&self) -> (symbols: Vec<char>)
        ensures
            symbols@ == self@.images,
    {
        let symbols = self.key.clone();
        assert(symbols@ =~= self.key@);
        symbols
    }

    /// The place of the alphabet that decides what `c` is replaced by.
    fn position(&self, c: char) -> (place: Option<usize>)
        ensures
            match place {
                Some(i) => self@.alphabet.contains(c) && i == self@.position(c) && i
                    < self@.alphabet.len(),
                None => !self@.alphabet.contains(c),
            },
    {
        let n = self.alphabet.len();
        let mut i: usize = n;
        while i > 0
            invariant
                i <= n,
                n == self.alphabet@.len(),
                forall|j: int| i <= j < n ==> self.alphabet@[j] != c,
            decreases i,
        {
            i -= 1;
            if self.alphabet[i] == c {
                proof {
                    lemma_last_position(self.alphabet@, c);
                    assert(self.alphabet@.contains(c));
                }
                return Some(i);
            }
        }
        None
    }

    /// What `c` is replaced by: its image where the alphabet holds it, else `c` itself.
    pub fn substitute(&self, c: char) -> (image: char)
        requires
            self.wf(),
        ensures
            image == self@.apply(c),
    {
        proof {
            self@.images.to_multiset_ensures();
            self@.alphabet.to_multiset_ensures();
        }
        match self.position(c) {
            Some(i) => self.key[i],
            None => c,
        }
    }

    /// One symbol of the alphabet, drawn from the key's random source. The
    /// mapping stays as it is.
    pub fn choose_symbol(&mut self) -> (symbol: char)
        requires
            old(self).wf(),
        ensures
            final(self).wf(),
            final(self)@ == old(self)@,
            old(self)@.alphabet.contains(symbol),
    {
        match draw_symbol(&self.alphabet, &mut self.rng) {
            Some(c) => c,
            None => unreached(),
        }
    }

    /// Exchanges the images of `a` and `b`, two symbols of the alphabet.
    pub fn swap(&mut self, a: char, b: char)
        requires
            old(self).wf(),
            old(self)@.alphabet.contains(a),
            old(self)@.alphabet.contains(b),
        ensures
            final(self).wf(),
            final(self)@ == old(self)@.swapped(a, b),
    {
        proof {
            self@.images.to_multiset_ensures();
            self@.alphabet.to_multiset_ensures();
            lemma_swapped_wf(self@, a, b);
        }
        match (self.position(a), self.position(b)) {
            (Some(i), Some(j)) => {
                let a_value = self.key[i];
                let b_value = self.key[j];
                self.key[i] = b_value;
                self.key[j] = a_value;
            },
            _ => {
                unreached::<()>()
            },
        }
    }

    /// Moves to a neighbour: draws two symbols of the alphabet and exchanges
    /// their images. The two may be the same symbol, and the key then stays
    /// as it is.
    pub fn perturb(&mut self) -> (ret: &mut CipherKey)
        requires
            old(self).wf(),
        ensures
            ret.wf(),
            exists|a: char, b: char|
                old(self)@.alphabet.contains(a) && old(self)@.alphabet.contains(b) && ret@
                    == #[trigger] old(self)@.swapped(a, b),
            *final(self) == *final(ret),
    {
        let a_key = self.choose_symbol();
        let b_key = self.choose_symbol();
        self.swap(a_key, b_key);
        self
    }

    /// `ciphered` with each symbol of the alphabet replaced by its image and
    /// every other symbol kept.
    pub fn decipher(&self, ciphered: &str) -> (plain: String)
        requires
            self.wf(),
        ensures
            plain@ == self@.decipher(ciphered@),
    {
        let mut plain = String::new();
        for c in it: ciphered.chars()
            invariant
                self.wf(),
                it.seq() == ciphered@,
                plain@ == self@.decipher(ciphered@.take(it.index() as int)),
        {
            let image = self.substitute(c);
            plain.push(image);
            proof {
                let n = it.index() as int;
                assert(self@.decipher(ciphered@.take(n + 1)) =~= self@.decipher(
                    ciphered@.take(n),
                ).push(image));
            }
        }
        proof {
            assert(ciphered@.take(ciphered@.len() as int) == ciphered@);
        }
        plain
    }
}

/// The images of a well-formed key line up with its alphabet, and each is a
/// symbol of the alphabet.
pub(crate) proof fn lemma_images_in_alphabet(key: Substitution)
    requires
        key.wf(),
    ensures
        key.images.len() == key.alphabet.len(),
        forall|i: int| 0 <= i < key.images.len() ==> key.alphabet.contains(#[trigger] key.images[i]),
{
    key.images.to_multiset_ensures();
    key.alphabet.to_multiset_ensures();
    assert forall|i: int| 0 <= i < key.images.len() implies key.alphabet.contains(
        #[trigger] key.images[i],
    ) by {
        assert(key.images.contains(key.images[i]));
        assert(key.images.to_multiset().count(key.images[i]) > 0);
    }
}

/// Exchanging two images keeps the key well formed.
pub(crate) proof fn lemma_swapped_wf(key: Substitution, a: char, b: char)
    requires
        key.wf(),
        key.alphabet.contains(a),
        key.alphabet.contains(b),
    ensures
        key.swapped(a, b).wf(),
        0 <= key.position(a) < key.images.len(),
        0 <= key.position(b) < key.images.len(),
{
    lemma_images_in_alphabet(key);
    lemma_last_position(key.alphabet, a);
    lemma_last_position(key.alphabet, b);
    let i = key.position(a);
    let j = key.position(b);
    let x = key.images[i];
    let y = key.images[j];
    let once = key.images.update(i, y);
    let twice = once.update(j, x);
    vstd::seq_lib::to_multiset_update(key.images, i, y);
    vstd::seq_lib::to_multiset_update(once, j, x);
    key.images.to_multiset_ensures();
    assert(key.images.contains(x));
    assert(key.images.contains(y));
    assert(twice.to_multiset() =~= key.images.to_multiset());
}

} // verus!
