use cryptirust::word_list::cv;
use cryptirust::word_list::WordList;

#[test]
fn cv_list_has_every_pair_in_both_orders() {
    let words = cv::list();
    assert_eq!(words.len(), 190);
    assert_eq!(words[0], "qa");
    assert_eq!(words[1], "aq");
    assert_eq!(words[2], "qe");
    assert_eq!(words[9], "uq");
    assert_eq!(words[10], "wa");
    assert_eq!(words[188], "mu");
    assert_eq!(words[189], "um");
    for w in words.iter() {
        assert_eq!(w.chars().count(), 2);
    }
}

#[test]
fn cv_list_has_no_word_twice() {
    let words = cv::list();
    for i in 0..words.len() {
        for j in 0..i {
            assert_ne!(words[i], words[j]);
        }
    }
}

#[test]
fn styles_are_read_by_name() {
    assert_eq!(WordList::from_arg_value("italian"), Ok(WordList::Italian));
    assert_eq!(WordList::from_arg_value("eff"), Ok(WordList::English));
    assert_eq!(WordList::from_arg_value("cv"), Ok(WordList::CV));
}

#[test]
fn unknown_style_is_turned_down() {
    let message = "non existant word list, use one of [italian, cv, eff].".to_string();
    assert_eq!(WordList::from_arg_value("english"), Err(message.clone()));
    assert_eq!(WordList::from_arg_value(""), Err(message.clone()));
    assert_eq!(WordList::from_arg_value("CV"), Err(message.clone()));
    assert_eq!(WordList::from_arg_value("cv "), Err(message));
}
