use wordle_solver::vocab::{guess_pool, parse_words, LoadError};
use wordle_solver::word::{same_word, to_word, word_from_bytes};

#[test]
fn a_list_is_one_word_per_line() {
    assert_eq!(parse_words(b"silly\nhotel\ndaily"), Ok(vec![to_word("silly"), to_word("hotel"), to_word("daily")]));
    assert_eq!(parse_words(b"silly\nhotel\n"), Ok(vec![to_word("silly"), to_word("hotel")]));
    assert_eq!(parse_words(b""), Ok(vec![]));
    assert_eq!(parse_words(b"silly"), Ok(vec![to_word("silly")]));
}

#[test]
fn a_line_that_is_no_word_is_named() {
    assert_eq!(parse_words(b"silly\nhot\ndaily"), Err(LoadError { line: 1 }));
    assert_eq!(parse_words(b"Silly\nhotel"), Err(LoadError { line: 0 }));
    assert_eq!(parse_words(b"silly\nhotel\n\n"), Err(LoadError { line: 2 }));
    assert_eq!(parse_words(b"\n"), Err(LoadError { line: 0 }));
    assert_eq!(parse_words(b"silly\nhotels\n"), Err(LoadError { line: 1 }));
    assert_eq!(parse_words(b"silly\r\nhotel\r\n"), Err(LoadError { line: 0 }));
    assert_eq!(parse_words(b"silly\nho el\n"), Err(LoadError { line: 1 }));
}

#[test]
fn words_are_five_lowercase_letters() {
    assert_eq!(word_from_bytes(b"hotel"), Some(to_word("hotel")));
    assert_eq!(word_from_bytes(b"hote"), None);
    assert_eq!(word_from_bytes(b"hotels"), None);
    assert_eq!(word_from_bytes(b"hoTel"), None);
    assert_eq!(word_from_bytes(b"az{`a"), None);
    assert!(same_word(&to_word("hotel"), &to_word("hotel")));
    assert!(!same_word(&to_word("hotel"), &to_word("hotes")));
}

#[test]
fn the_pool_is_the_answers_alone_when_asked() {
    let answers = vec![to_word("silly"), to_word("hotel"), to_word("silly")];
    let more = vec![to_word("daily")];
    assert_eq!(guess_pool(&answers, &more, true), answers);
}

#[test]
fn the_pool_is_sorted_and_holds_each_word_once() {
    let answers = vec![to_word("silly"), to_word("hotel"), to_word("daily")];
    let more = vec![to_word("hotel"), to_word("crane"), to_word("silly"), to_word("zebra"), to_word("crane")];
    assert_eq!(
        guess_pool(&answers, &more, false),
        vec![to_word("crane"), to_word("daily"), to_word("hotel"), to_word("silly"), to_word("zebra")]
    );
    assert_eq!(guess_pool(&vec![], &vec![], false), Vec::<[u8; 5]>::new());
    assert_eq!(guess_pool(&answers, &vec![], false), vec![to_word("daily"), to_word("hotel"), to_word("silly")]);
}
