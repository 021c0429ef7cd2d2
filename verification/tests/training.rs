use cryptirust::jump_table::jump_table_from_transition_matrix;
use cryptirust::jump_table::max_depth;
use cryptirust::matrix::transition_matrix_from_tokens;
use cryptirust::text;
use cryptirust::JumpTable;
use cryptirust::Odds;

fn strings(words: &[&str]) -> Vec<String> {
    words.iter().map(|w| w.to_string()).collect()
}

fn chars(s: &str) -> Vec<char> {
    s.chars().collect()
}

fn table(words: &[&str], depth: usize) -> JumpTable {
    jump_table_from_transition_matrix(transition_matrix_from_tokens(strings(words), depth))
}

#[test]
fn distilling_counts_every_window() {
    // "banana", depth 2:
    //   "" -> "ba", "b" -> "an", "ba" -> "na", "an" -> "an" (skipped),
    //   "na" -> "na" (skipped), "an" -> "a".
    let m = transition_matrix_from_tokens(strings(&["banana"]), 2);
    assert_eq!(m.len(), 4);
    assert_eq!(m.count("", "ba"), 1);
    assert_eq!(m.count("b", "an"), 1);
    assert_eq!(m.count("ba", "na"), 1);
    assert_eq!(m.count("an", "a"), 1);
    assert_eq!(m.count("an", "an"), 0);
    assert_eq!(m.count("na", "na"), 0);
    assert_eq!(m.count("a", "n"), 0);
}

#[test]
fn distilling_adds_up_repeated_transitions() {
    let m = transition_matrix_from_tokens(strings(&["ab", "ab", "ac", "Ab", " ab "]), 1);
    assert_eq!(m.count("", "a"), 5);
    assert_eq!(m.count("a", "b"), 4);
    assert_eq!(m.count("a", "c"), 1);
    assert_eq!(m.count("b", "a"), 0);
    assert_eq!(m.len(), 2);
}

#[test]
fn distilling_with_depth_one_skips_doubled_letters() {
    // "aab", depth 1: "" -> "a", "a" -> "a" (skipped), "a" -> "b".
    let m = transition_matrix_from_tokens(strings(&["aab"]), 1);
    assert_eq!(m.count("", "a"), 1);
    assert_eq!(m.count("a", "a"), 0);
    assert_eq!(m.count("a", "b"), 1);
}

#[test]
fn distilling_nothing_gives_an_empty_matrix() {
    assert_eq!(transition_matrix_from_tokens(Vec::new(), 3).len(), 0);
    assert_eq!(transition_matrix_from_tokens(strings(&["", "  ", "\t"]), 3).len(), 0);
    assert_eq!(transition_matrix_from_tokens(strings(&["abc"]), 0).len(), 0);
    let t = jump_table_from_transition_matrix(transition_matrix_from_tokens(Vec::new(), 3));
    assert_eq!(t.len(), 0);
    assert_eq!(max_depth(&t), 0);
}

#[test]
fn rows_keep_the_order_of_first_occurrence() {
    let m = transition_matrix_from_tokens(strings(&["cb", "ab", "cb", "bb", "ab", "cb"]), 2);
    let mut at = None;
    for i in 0..m.len() {
        if m.row(i).0.is_empty() {
            at = Some(i);
        }
    }
    let (_, outcomes, counts) = m.row(at.unwrap());
    assert_eq!(outcomes, &vec![chars("cb"), chars("ab"), chars("bb")]);
    assert_eq!(counts, &vec![3u128, 2, 1]);
}

#[test]
fn distribution_holds_running_sums_and_odds() {
    let t = table(&["cb", "ab", "cb", "bb", "ab", "cb"], 2);
    let d = t.get("").unwrap();
    assert_eq!(d.len(), 3);
    assert_eq!(d.total(), 6);
    assert_eq!(d.token(0), &chars("cb"));
    assert_eq!(d.token(1), &chars("ab"));
    assert_eq!(d.token(2), &chars("bb"));
    assert_eq!(d.cumulative(0), 3);
    assert_eq!(d.cumulative(1), 5);
    assert_eq!(d.cumulative(2), 6);
    assert_eq!(d.odds(0), Odds { count: 3, total: 6 });
    assert_eq!(d.odds(1), Odds { count: 2, total: 6 });
    assert_eq!(d.odds(2), Odds { count: 1, total: 6 });
    assert!(t.get("x").is_none());
    assert!(t.get("cb").is_none());
    assert_eq!(t.get("c").unwrap().total(), 3);
}

#[test]
fn pick_is_the_inverse_of_the_running_sums() {
    let t = table(&["cb", "ab", "cb", "bb", "ab", "cb"], 2);
    let d = t.get("").unwrap();
    assert_eq!(d.pick(0), 0);
    assert_eq!(d.pick(1), 0);
    assert_eq!(d.pick(2), 0);
    assert_eq!(d.pick(3), 1);
    assert_eq!(d.pick(4), 1);
    assert_eq!(d.pick(5), 2);
}

#[test]
fn every_trained_distribution_is_valid() {
    let t = jump_table_from_transition_matrix(transition_matrix_from_tokens(
        cryptirust::word_list::cv::list(),
        3,
    ));
    assert!(t.len() > 0);
    for i in 0..t.len() {
        let (_, d) = t.entry(i);
        assert!(d.len() > 0);
        let mut before = 0u128;
        for j in 0..d.len() {
            assert!(d.cumulative(j) > before);
            assert_eq!(d.odds(j), Odds { count: d.cumulative(j) - before, total: d.total() });
            assert!(!d.token(j).is_empty());
            before = d.cumulative(j);
        }
        assert_eq!(before, d.total());
        let mut hits = vec![0u128; d.len()];
        for n in 0..d.total() {
            hits[d.pick(n)] += 1;
        }
        for j in 0..d.len() {
            assert_eq!(hits[j], d.odds(j).count);
        }
    }
}

#[test]
fn max_depth_is_the_longest_context_or_token() {
    assert_eq!(max_depth(&table(&["banana"], 2)), 2);
    assert_eq!(max_depth(&table(&["banana"], 4)), 4);
    assert_eq!(max_depth(&table(&["banana"], 9)), 6);
    assert_eq!(max_depth(&table(&["a", "b"], 3)), 1);
}

#[test]
fn backoff_drops_chars_until_a_context_is_known() {
    let t = table(&["banana"], 2);
    // contexts: "", "b", "ba", "an"
    let (found, dropped) = t.backoff(&chars("an"), 0);
    assert_eq!(found.unwrap().token(0), &chars("a"));
    assert_eq!(dropped, 0);
    let (found, dropped) = t.backoff(&chars("xb"), 0);
    assert_eq!(found.unwrap().token(0), &chars("an"));
    assert_eq!(dropped, 1);
    let (found, dropped) = t.backoff(&chars("xy"), 0);
    assert_eq!(found.unwrap().token(0), &chars("ba"));
    assert_eq!(dropped, 2);
    let (found, dropped) = t.backoff(&chars("banana"), 4);
    assert_eq!(found.unwrap().token(0), &chars("ba"));
    assert_eq!(dropped, 2);
    let (found, dropped) = t.backoff(&chars(""), 0);
    assert!(found.is_some());
    assert_eq!(dropped, 0);
}

#[test]
fn backoff_never_looks_up_more_than_depth_plus_one() {
    let t = table(&["banana", "bandana", "cabana"], 3);
    for seed in ["", "q", "qq", "qqq", "ban", "xan", "xxn", "and"] {
        let text = chars(seed);
        let (found, dropped) = t.backoff(&text, 0);
        assert!(found.is_some());
        assert!(dropped + 1 <= 3 + 1);
    }
}

#[test]
fn backoff_on_an_empty_table_is_exhausted() {
    let t = table(&[], 2);
    let (found, dropped) = t.backoff(&chars("ab"), 0);
    assert!(found.is_none());
    assert_eq!(dropped, 2);
}

#[test]
fn trim_and_normalize() {
    assert_eq!(text::trim(&chars("  a b \t\n")), chars("a b"));
    assert_eq!(text::trim(&chars("   ")), chars(""));
    assert_eq!(text::trim(&chars("")), chars(""));
    assert_eq!(text::trim(&chars("x")), chars("x"));
    assert_eq!(text::trim(&chars("\u{2003}x\u{a0}")), chars("x"));
    assert_eq!(text::normalize("  HeLLo "), chars("hello"));
    assert_eq!(text::normalize(" \t "), chars(""));
}

#[test]
fn uppercase_first_letter_leaves_the_rest() {
    assert_eq!(text::uppercase_first_letter(&chars("abc")), chars("Abc"));
    assert_eq!(text::uppercase_first_letter(&chars("aBC")), chars("ABC"));
    assert_eq!(text::uppercase_first_letter(&chars("")), chars(""));
    assert_eq!(text::uppercase_first_letter(&chars("1a")), chars("1a"));
    assert_eq!(text::uppercase_first_letter(&chars("\u{df}a")), chars("SSa"));
}

#[test]
fn strings_and_chars_convert_both_ways() {
    assert_eq!(text::chars_of("a\u{e9}z"), vec!['a', '\u{e9}', 'z']);
    assert_eq!(text::string_of(&vec!['a', '\u{e9}', 'z']), "a\u{e9}z");
    assert_eq!(text::chars_of(""), Vec::<char>::new());
    assert_eq!(text::slice_of(&chars("abcdef"), 2, 4), chars("cd"));
    assert!(text::same_text(&chars("ab"), &chars("ab")));
    assert!(!text::same_text(&chars("ab"), &chars("abc")));
    assert!(!text::same_text(&chars("ab"), &chars("ac")));
    assert!(text::same_from(&chars("cd"), &chars("abcd"), 2));
    assert!(!text::same_from(&chars("cd"), &chars("abcd"), 1));
}
