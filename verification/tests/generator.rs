use cryptirust::Entropy;
use cryptirust::Generator;
use cryptirust::Odds;
use rand::SeedableRng;
use rand_chacha::ChaCha8Rng;
use std::collections::HashMap;

fn strings(words: &[&str]) -> Vec<String> {
    words.iter().map(|w| w.to_string()).collect()
}

/// A small closed corpus: every context leads to tokens of one length.
fn small_corpus() -> Vec<String> {
    strings(&["ab", "ac", "ba"])
}

fn bits(entropy: &Entropy) -> f64 {
    let mut sum = 0.0;
    for odds in entropy.terms.iter() {
        sum += (odds.total as f64 / odds.count as f64).log2();
    }
    sum
}

fn seeded(corpus: Vec<String>, depth: usize, seed: u64) -> Generator {
    Generator::with_rng(corpus, depth, ChaCha8Rng::seed_from_u64(seed)).unwrap()
}

fn certify(pattern: &str) -> bool {
    let mut gen = Generator::new_custom(small_corpus(), 2).unwrap();
    gen.rng = ChaCha8Rng::seed_from_u64(0x5792CBF); //fix seed for reproducible results
    let mut hist = HashMap::<String, usize>::new();
    let mut tot_h: f64 = 0.0;
    let mut tot_c: f64 = 1e-16;
    let mut q = 128;
    let mut old_entropy = 0.0;
    println!("testing pattern {}", pattern);
    loop {
        for _ in 0..q {
            let (pw, e) = gen.gen_from_pattern(pattern);
            let h = bits(&e);
            tot_h += h;
            tot_c += 1.0;
            let v = *hist.get(&pw).or(Some(&0)).unwrap();
            hist.insert(pw, v + 1);
        }
        q += q / 16;
        let avg_h = tot_h / tot_c;
        let mut entropy = 0.0 as f64;
        for (_, &v) in hist.iter() {
            let p = v as f64 / tot_c;
            entropy += -p * p.log2();
        }
        entropy += (hist.len() as f64 - 1.0) / (2.0 * tot_c);
        if (entropy - avg_h).abs() < 1e-2 {
            println!("- PASSED! unique words {}", hist.len());
            return true;
        }
        if (entropy - old_entropy).abs() < 1e-5 {
            println!("- WARNING, entropies {} {}.", entropy, avg_h);
            if (entropy - old_entropy).abs() < 1e-6 {
                println!("- FAILED, entropies {} {}.", entropy, avg_h);
                return false;
            }
        }
        old_entropy = entropy;
    }
}

#[test]
fn test_word() {
    assert!(certify(""));
    assert!(certify("d"));
    assert!(certify("s"));
    assert!(certify("c"));
    assert!(certify("cc"));
    assert!(certify("w"));
    assert!(certify("ww"));
    assert!(certify("w.w"));
    assert!(certify("c.c"));
    assert!(certify("ccc"));
    assert!(certify("sdc"));
    assert!(certify("literal"));
}

#[test]
fn training_fails_on_an_empty_corpus() {
    assert!(Generator::new_custom(Vec::new(), 3).is_none());
    assert!(Generator::new_custom(Vec::new(), 0).is_none());
}

#[test]
fn training_fails_on_empty_and_blank_strings() {
    assert!(Generator::new_custom(strings(&["", "   "]), 3).is_none());
    assert!(Generator::new_custom(strings(&["", "   "]), 1).is_none());
    assert!(Generator::new_custom(strings(&[" \t\n"]), 2).is_none());
}

#[test]
fn training_succeeds_on_one_letter() {
    let g = Generator::new_custom(strings(&["", " a "]), 3).unwrap();
    assert_eq!(g.depth(), 1);
}

#[test]
fn escaped_class_char_is_a_literal() {
    let mut g = seeded(small_corpus(), 2, 1);
    let (text, entropy) = g.gen_from_pattern("\\w");
    assert_eq!(text, "w");
    assert!(entropy.terms.is_empty());
    assert_eq!(bits(&entropy), 0.0);
}

#[test]
fn digit_has_one_in_ten_odds() {
    let mut g = seeded(small_corpus(), 2, 2);
    for _ in 0..50 {
        let (text, entropy) = g.gen_from_pattern("d");
        assert_eq!(text.chars().count(), 1);
        assert!(text.chars().next().unwrap().is_ascii_digit());
        assert_eq!(entropy.terms, vec![Odds { count: 1, total: 10 }]);
        assert_eq!(bits(&entropy), 10f64.log2());
    }
}

#[test]
fn two_symbols_have_twice_the_bits_of_one() {
    let mut g = seeded(small_corpus(), 2, 3);
    for _ in 0..50 {
        let (text, entropy) = g.gen_from_pattern("ss");
        assert_eq!(text.chars().count(), 2);
        for c in text.chars() {
            assert!("@#!$%&=?^+-*\"".contains(c));
        }
        assert_eq!(entropy.terms, vec![Odds { count: 1, total: 13 }, Odds { count: 1, total: 13 }]);
        assert_eq!(bits(&entropy), 2.0 * 13f64.log2());
    }
}

#[test]
fn literals_and_classes_add_up() {
    let mut g = seeded(small_corpus(), 2, 4);
    let (text, entropy) = g.gen_from_pattern("x-d\\ds.\\\\");
    let chars: Vec<char> = text.chars().collect();
    assert_eq!(chars.len(), 7);
    assert_eq!(chars[0], 'x');
    assert_eq!(chars[1], '-');
    assert!(chars[2].is_ascii_digit());
    assert_eq!(chars[3], 'd');
    assert!("@#!$%&=?^+-*\"".contains(chars[4]));
    assert_eq!(chars[5], '.');
    assert_eq!(chars[6], '\\');
    assert_eq!(entropy.terms, vec![Odds { count: 1, total: 10 }, Odds { count: 1, total: 13 }]);
}

#[test]
fn backslash_at_the_end_adds_nothing() {
    let mut g = seeded(small_corpus(), 2, 5);
    let (text, entropy) = g.gen_from_pattern("ab\\");
    assert_eq!(text, "ab");
    assert!(entropy.terms.is_empty());
    let (text, entropy) = g.gen_from_pattern("\\");
    assert_eq!(text, "");
    assert!(entropy.terms.is_empty());
}

#[test]
fn empty_pattern_gives_empty_text() {
    let mut g = seeded(small_corpus(), 2, 6);
    let (text, entropy) = g.gen_from_pattern("");
    assert_eq!(text, "");
    assert!(entropy.terms.is_empty());
}

#[test]
fn same_seed_gives_same_passwords() {
    let mut a = seeded(cryptirust::word_list::cv::list(), 3, 42);
    let mut b = seeded(cryptirust::word_list::cv::list(), 3, 42);
    for pattern in ["w", "W-c-s-d", "ccc", "ww", "sdc", "C.c\\w"] {
        let (ta, ea) = a.gen_from_pattern(pattern);
        let (tb, eb) = b.gen_from_pattern(pattern);
        assert_eq!(ta, tb);
        assert_eq!(ea.terms, eb.terms);
    }
    assert_eq!(a.gen_next_token("qa"), b.gen_next_token("qa"));
}

#[test]
fn capital_differs_only_in_the_first_letter() {
    for seed in 0..20u64 {
        let mut a = seeded(cryptirust::word_list::cv::list(), 2, seed);
        let mut b = seeded(cryptirust::word_list::cv::list(), 2, seed);
        let (lower, el) = a.gen_from_pattern("c");
        let (upper, eu) = b.gen_from_pattern("C");
        assert_eq!(el.terms, eu.terms);
        let mut chars = lower.chars();
        let first = chars.next().unwrap();
        let expected: String = first.to_uppercase().collect::<String>() + chars.as_str();
        assert_eq!(upper, expected);
        assert_ne!(upper, lower);
    }
}

#[test]
fn capital_word_differs_only_in_the_first_letter() {
    for seed in 0..20u64 {
        let mut a = seeded(cryptirust::word_list::cv::list(), 2, seed);
        let mut b = seeded(cryptirust::word_list::cv::list(), 2, seed);
        let (lower, el) = a.gen_from_pattern("w");
        let (upper, eu) = b.gen_from_pattern("W");
        assert_eq!(el.terms, eu.terms);
        let mut chars = lower.chars();
        let first = chars.next().unwrap();
        let expected: String = first.to_uppercase().collect::<String>() + chars.as_str();
        assert_eq!(upper, expected);
    }
}

#[test]
fn word_has_as_many_tokens_as_the_depth_asks() {
    // depth 2: four tokens; the first has two letters, the others one.
    let mut g = seeded(cryptirust::word_list::cv::list(), 2, 7);
    assert_eq!(g.depth(), 2);
    let (text, entropy) = g.gen_from_pattern("w");
    assert_eq!(entropy.terms.len(), 4);
    assert_eq!(text.chars().count(), 5);
    // depth 1: eight tokens of one letter.
    let mut g = seeded(cryptirust::word_list::cv::list(), 1, 7);
    assert_eq!(g.depth(), 1);
    let (text, entropy) = g.gen_from_pattern("w");
    assert_eq!(entropy.terms.len(), 8);
    assert_eq!(text.chars().count(), 8);
}

#[test]
fn adjoining_words_are_set_apart_by_a_dot() {
    let mut g = seeded(cryptirust::word_list::cv::list(), 2, 8);
    let (text, entropy) = g.gen_from_pattern("ww");
    let chars: Vec<char> = text.chars().collect();
    assert_eq!(chars.len(), 11);
    assert_eq!(chars[5], '.');
    assert_eq!(entropy.terms.len(), 8);
    let (text, _) = g.gen_from_pattern("wW");
    assert_eq!(text.chars().nth(5), Some('.'));
    let (text, _) = g.gen_from_pattern("cc");
    assert!(!text.contains('.'));
    let (text, _) = g.gen_from_pattern("w-w");
    assert_eq!(text.chars().filter(|c| *c == '.').count(), 0);
}

#[test]
fn next_token_follows_the_seed() {
    let mut g = seeded(small_corpus(), 2, 9);
    // "b" is followed by "a" alone.
    for seed in ["b", "ab", "xxb", "B"] {
        let (token, odds) = g.gen_next_token(seed).unwrap();
        assert_eq!(token, "a");
        assert_eq!(odds, Odds { count: 1, total: 1 });
    }
    // "a" is followed by "b" or "c", each once.
    for _ in 0..30 {
        let (token, odds) = g.gen_next_token("ca").unwrap();
        assert!(token == "b" || token == "c");
        assert_eq!(odds, Odds { count: 1, total: 2 });
    }
    // An unknown context falls back to the start of a word.
    for _ in 0..30 {
        let (token, odds) = g.gen_next_token("zz").unwrap();
        assert_eq!(token.chars().count(), 2);
        assert_eq!(odds, Odds { count: 1, total: 3 });
    }
    let (token, _) = g.gen_next_token("").unwrap();
    assert_eq!(token.chars().count(), 2);
}

#[test]
fn repeated_words_weigh_more() {
    let mut g = seeded(strings(&["ab", "ab", "ab", "cd"]), 2, 10);
    let mut seen_ab = 0;
    let mut seen_cd = 0;
    for _ in 0..400 {
        let (token, odds) = g.gen_next_token("").unwrap();
        if token == "ab" {
            assert_eq!(odds, Odds { count: 3, total: 4 });
            seen_ab += 1;
        } else {
            assert_eq!(token, "cd");
            assert_eq!(odds, Odds { count: 1, total: 4 });
            seen_cd += 1;
        }
    }
    assert!(seen_ab > 250);
    assert!(seen_cd > 50);
}

#[test]
fn training_normalizes_the_corpus() {
    let mut g = seeded(strings(&["  AB  ", "\tab\n"]), 2, 11);
    let (token, odds) = g.gen_next_token("").unwrap();
    assert_eq!(token, "ab");
    assert_eq!(odds, Odds { count: 2, total: 2 });
    let (text, _) = g.gen_from_pattern("C");
    assert_eq!(text, "Ab");
}

#[test]
fn generator_shows_its_table_and_depth() {
    let g = seeded(strings(&["banana"]), 4, 12);
    assert_eq!(g.depth(), 4);
    let t = g.jump_table();
    // contexts: "", "b", "ba", "ban", "bana", "anan"
    assert_eq!(t.len(), 6);
    assert_eq!(t.get("").unwrap().token(0), &vec!['b', 'a', 'n', 'a']);
    assert_eq!(cryptirust::jump_table::max_depth(t), 4);
    let g = seeded(strings(&["banana"]), 0, 12);
    assert_eq!(g.depth(), 1);
    let g = seeded(strings(&["banana"]), 40, 12);
    assert_eq!(g.depth(), 6);
}

#[test]
fn generation_leaves_the_table_as_it_is() {
    let mut g = seeded(small_corpus(), 2, 13);
    let before = g.jump_table().len();
    for pattern in ["w", "cC", "sd", "x"] {
        g.gen_from_pattern(pattern);
    }
    assert_eq!(g.jump_table().len(), before);
    assert_eq!(g.depth(), 2);
}

#[test]
fn odds_of_every_draw_are_valid() {
    let mut g = seeded(cryptirust::word_list::cv::list(), 3, 14);
    for _ in 0..50 {
        let (_, entropy) = g.gen_from_pattern("W-w-c-s-d");
        for odds in entropy.terms.iter() {
            assert!(0 < odds.count && odds.count <= odds.total);
        }
        assert!(bits(&entropy) > 0.0);
    }
}

#[test]
fn seed_is_cut_to_the_chain_depth() {
    // depth 2: only the last two chars of the seed matter.
    let mut a = seeded(strings(&["banana", "bandit"]), 2, 15);
    let mut b = seeded(strings(&["banana", "bandit"]), 2, 15);
    for _ in 0..20 {
        assert_eq!(a.gen_next_token("xxxxban"), b.gen_next_token("an"));
    }
}
