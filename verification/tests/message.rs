use mcmc_decrypt::message::{CipherKey, KeyError};
use mcmc_decrypt::utils::random_lookup;
use rand::SeedableRng;
use rand_pcg::Mcg128Xsl64;

fn mapping(key: &CipherKey) -> Vec<(char, char)> {
    key.alphabet()
        .into_iter()
        .map(|c| (c, key.substitute(c)))
        .collect()
}

fn is_bijection(key: &CipherKey) -> bool {
    let alphabet = key.alphabet();
    let mut images: Vec<char> = alphabet.iter().map(|c| key.substitute(*c)).collect();
    let mut symbols = alphabet.clone();
    images.sort();
    symbols.sort();
    images == symbols
}

#[test]
fn test_cipher_key() {
    let rng: Mcg128Xsl64 = rand::SeedableRng::seed_from_u64(0);
    let mut cipher_key = CipherKey::new("abc", rng).unwrap();
    let ciphertext = "aabbcc";

    // test initialisation
    assert_eq!(cipher_key.alphabet(), vec!['a', 'b', 'c']);
    let mut key = vec![('a', 'a'), ('b', 'c'), ('c', 'b')];
    assert_eq!(mapping(&cipher_key), key);
    assert_eq!(cipher_key.decipher(ciphertext), "aaccbb");

    // test pertubation - should swap two keys
    cipher_key.perturb();
    assert!(mapping(&cipher_key) != key);
    key[0] = ('a', 'c');
    key[1] = ('b', 'a');
    assert_eq!(mapping(&cipher_key), key);
    assert_eq!(cipher_key.decipher(ciphertext), "ccaabb");
}

#[test]
fn test_cipher_key_non_alphabet() {
    let rng: Mcg128Xsl64 = rand::SeedableRng::seed_from_u64(0);
    let cipher_key = CipherKey::new("abc", rng).unwrap();
    let ciphertext = "abcxyz";

    // test deciphering non alphabet characters
    assert_eq!(cipher_key.decipher(ciphertext), "acbxyz");
}

#[test]
fn empty_alphabet_is_refused() {
    let rng = Mcg128Xsl64::seed_from_u64(0);
    let made = CipherKey::new("", rng);
    assert_eq!(made.err(), Some(KeyError::EmptyAlphabet));
}

#[test]
fn single_symbol_maps_to_itself() {
    let rng = Mcg128Xsl64::seed_from_u64(7);
    let mut key = CipherKey::new("q", rng).unwrap();
    assert_eq!(key.substitute('q'), 'q');
    key.perturb();
    assert_eq!(key.substitute('q'), 'q');
    assert_eq!(key.choose_symbol(), 'q');
    assert_eq!(key.decipher("quiz"), "quiz");
}

#[test]
fn mapping_stays_a_bijection() {
    for seed in 0..20u64 {
        let rng = Mcg128Xsl64::seed_from_u64(seed);
        let mut key = CipherKey::new("abcdefghij -,", rng).unwrap();
        assert!(is_bijection(&key));
        for _ in 0..50 {
            key.perturb();
            assert!(is_bijection(&key));
            assert_eq!(key.alphabet().len(), 13);
        }
    }
}

#[test]
fn perturb_changes_at_most_two_entries() {
    let text = "a bad cafe, a faded badge - ij";
    for seed in 0..20u64 {
        let rng = Mcg128Xsl64::seed_from_u64(seed);
        let mut key = CipherKey::new("abcdefghij -,", rng).unwrap();
        for _ in 0..20 {
            let before = mapping(&key);
            let plain_before = key.decipher(text);
            key.perturb();
            let after = mapping(&key);
            let changed: Vec<usize> =
                (0..before.len()).filter(|i| before[*i] != after[*i]).collect();
            assert!(changed.len() == 0 || changed.len() == 2);
            if changed.len() == 2 {
                assert_eq!(before[changed[0]].1, after[changed[1]].1);
                assert_eq!(before[changed[1]].1, after[changed[0]].1);
            }
            let plain_after = key.decipher(text);
            let swapped: Vec<char> = changed.iter().map(|i| before[*i].0).collect();
            for ((c, p), q) in text
                .chars()
                .zip(plain_before.chars())
                .zip(plain_after.chars())
            {
                if !swapped.contains(&c) {
                    assert_eq!(p, q);
                } else {
                    assert!(p != q);
                }
            }
        }
    }
}

#[test]
fn swap_exchanges_two_images() {
    let rng = Mcg128Xsl64::seed_from_u64(0);
    let mut key = CipherKey::new("abc", rng).unwrap();
    assert_eq!(key.images(), vec!['a', 'c', 'b']);
    key.swap('a', 'c');
    assert_eq!(key.images(), vec!['b', 'c', 'a']);
    assert_eq!(key.substitute('a'), 'b');
    assert_eq!(key.substitute('b'), 'c');
    assert_eq!(key.substitute('c'), 'a');
    key.swap('b', 'b');
    assert_eq!(key.images(), vec!['b', 'c', 'a']);
    key.swap('c', 'a');
    assert_eq!(key.images(), vec!['a', 'c', 'b']);
    assert_eq!(key.alphabet(), vec!['a', 'b', 'c']);
}

#[test]
fn symbols_outside_the_alphabet_pass_through() {
    let rng = Mcg128Xsl64::seed_from_u64(3);
    let key = CipherKey::new("abc", rng).unwrap();
    for c in "xyz XYZ 019 \u{e9}\u{4e2d}".chars() {
        assert_eq!(key.substitute(c), c);
    }
    assert_eq!(key.decipher("xyz, \u{e9}!"), "xyz, \u{e9}!");
    assert_eq!(key.decipher(""), "");
}

#[test]
fn chosen_symbols_come_from_the_alphabet() {
    let rng = Mcg128Xsl64::seed_from_u64(11);
    let mut key = CipherKey::new("abc", rng).unwrap();
    let before = mapping(&key);
    let mut seen = Vec::new();
    for _ in 0..100 {
        let c = key.choose_symbol();
        assert!("abc".contains(c));
        if !seen.contains(&c) {
            seen.push(c);
        }
    }
    assert_eq!(seen.len(), 3);
    assert_eq!(mapping(&key), before);
}

#[test]
fn same_seed_gives_same_run() {
    let mut one = CipherKey::new("abcdefgh", Mcg128Xsl64::seed_from_u64(42)).unwrap();
    let mut two = CipherKey::new("abcdefgh", Mcg128Xsl64::seed_from_u64(42)).unwrap();
    assert_eq!(mapping(&one), mapping(&two));
    for _ in 0..30 {
        one.perturb();
        two.perturb();
        assert_eq!(mapping(&one), mapping(&two));
    }
}

#[test]
fn clone_keeps_mapping_and_random_source() {
    let mut key = CipherKey::new("abcdefgh", Mcg128Xsl64::seed_from_u64(5)).unwrap();
    let mut copy = key.clone();
    assert_eq!(mapping(&key), mapping(&copy));
    key.perturb();
    copy.perturb();
    assert_eq!(mapping(&key), mapping(&copy));
}

#[test]
fn repeated_symbol_is_looked_up_at_its_last_place() {
    let rng = Mcg128Xsl64::seed_from_u64(0);
    let key = CipherKey::new("aab", rng).unwrap();
    let images = key.images();
    assert_eq!(key.alphabet(), vec!['a', 'a', 'b']);
    assert_eq!(key.substitute('a'), images[1]);
    assert_eq!(key.substitute('b'), images[2]);
    let mut sorted = images.clone();
    sorted.sort();
    assert_eq!(sorted, vec!['a', 'a', 'b']);
}

#[test]
fn random_lookup_reorders_the_collection() {
    let mut rng = Mcg128Xsl64::seed_from_u64(0);
    let collection = vec!['a', 'b', 'c'];
    let shuffled = random_lookup(&collection, &mut rng);
    assert_eq!(shuffled, vec!['a', 'c', 'b']);
    assert_eq!(collection, vec!['a', 'b', 'c']);
    let letters: Vec<char> = "abcdefghijklmnopqrstuvwxyz".chars().collect();
    let mixed = random_lookup(&letters, &mut rng);
    assert!(mixed != letters);
    let mut sorted = mixed.clone();
    sorted.sort();
    assert_eq!(sorted, letters);
}
