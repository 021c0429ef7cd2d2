use cryptirust::engine::symbol_at;
use cryptirust::pattern::class;
use cryptirust::pattern::classify;
use cryptirust::pattern::escape;
use cryptirust::pattern::is_complete;
use cryptirust::pattern::Item;

fn chars(s: &str) -> Vec<char> {
    s.chars().collect()
}

#[test]
fn each_class_char_has_its_item() {
    assert_eq!(class('w'), Item::Word);
    assert_eq!(class('W'), Item::CapitalWord);
    assert_eq!(class('c'), Item::Char);
    assert_eq!(class('C'), Item::CapitalChar);
    assert_eq!(class('d'), Item::Digit);
    assert_eq!(class('s'), Item::Symbol);
    assert_eq!(class('x'), Item::Literal('x'));
    assert_eq!(class('D'), Item::Literal('D'));
    assert_eq!(class('S'), Item::Literal('S'));
    assert_eq!(class('\\'), Item::Literal('\\'));
    assert_eq!(escape('w'), Item::Escape('w'));
}

#[test]
fn pattern_is_read_in_one_pass() {
    assert_eq!(
        classify(&chars("wW-cC.ds")),
        vec![
            Item::Word,
            Item::CapitalWord,
            Item::Literal('-'),
            Item::Char,
            Item::CapitalChar,
            Item::Literal('.'),
            Item::Digit,
            Item::Symbol,
        ]
    );
    assert_eq!(classify(&chars("")), Vec::<Item>::new());
}

#[test]
fn backslash_takes_the_next_char() {
    assert_eq!(classify(&chars("\\w")), vec![Item::Escape('w')]);
    assert_eq!(classify(&chars("\\\\w")), vec![Item::Escape('\\'), Item::Word]);
    assert_eq!(
        classify(&chars("a\\sb")),
        vec![Item::Literal('a'), Item::Escape('s'), Item::Literal('b')]
    );
}

#[test]
fn backslash_at_the_end_asks_for_nothing() {
    assert_eq!(classify(&chars("\\")), Vec::<Item>::new());
    assert_eq!(classify(&chars("d\\")), vec![Item::Digit]);
    assert_eq!(classify(&chars("\\\\\\")), vec![Item::Escape('\\')]);
}

#[test]
fn pattern_is_complete_unless_a_backslash_is_left_over() {
    assert!(is_complete(&chars("")));
    assert!(is_complete(&chars("wcsd")));
    assert!(is_complete(&chars("\\w")));
    assert!(is_complete(&chars("a\\\\")));
    assert!(!is_complete(&chars("\\")));
    assert!(!is_complete(&chars("ab\\")));
    assert!(!is_complete(&chars("\\\\\\")));
}

#[test]
fn digits_and_symbols_have_their_places() {
    let digits: String = (0..10).map(|n| symbol_at(true, n)).collect();
    assert_eq!(digits, "0987654321");
    let symbols: String = (0..13).map(|n| symbol_at(false, n)).collect();
    assert_eq!(symbols, "@#!$%&=?^+-*\"");
}
