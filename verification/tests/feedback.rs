use wordle_solver::feedback::{score, scoreToInt};
use wordle_solver::word::to_word;

#[test]
fn test_colors() {
    let colors = score(to_word("silly"), to_word("hotel"));
    assert_eq!(colors, to_word("bbybb"));
    let colors = score(to_word("silly"), to_word("daily"));
    assert_eq!(colors, to_word("bybgg"));
}

#[test]
fn code_of_all_green_is_242() {
    assert_eq!(scoreToInt(&to_word("ggggg")), 242);
    assert_eq!(scoreToInt(&to_word("bbbbb")), 0);
    assert_eq!(scoreToInt(&to_word("ybbbb")), 1);
    assert_eq!(scoreToInt(&to_word("bbbbg")), 162);
}

fn count(word: &[u8; 5], letter: u8) -> usize {
    word.iter().filter(|c| **c == letter).count()
}

#[test]
fn a_letter_is_marked_no_more_often_than_the_answer_holds_it() {
    let words = ["llama", "hotel", "silly", "daily", "eerie", "geese", "aaaaa", "abcde", "level"];
    for g in words {
        for a in words {
            let guess = to_word(g);
            let answer = to_word(a);
            let colors = score(guess, answer);
            for letter in b'a'..=b'z' {
                let marked = (0..5).filter(|i| guess[*i] == letter && colors[*i] != b'b').count();
                let expected = count(&guess, letter).min(count(&answer, letter));
                assert_eq!(marked, expected);
                assert!(marked <= count(&answer, letter));
            }
        }
    }
}

#[test]
fn repeated_letters_are_marked_greens_first_then_from_the_left() {
    assert_eq!(score(to_word("llama"), to_word("hotel")), to_word("ybbbb"));
    assert_eq!(score(to_word("eerie"), to_word("geese")), to_word("ygbbg"));
    assert_eq!(score(to_word("geese"), to_word("eerie")), to_word("bgybg"));
    assert_eq!(score(to_word("level"), to_word("hotel")), to_word("bbbgg"));
    assert_eq!(score(to_word("hotel"), to_word("hotel")), to_word("ggggg"));
    assert_eq!(score(to_word("abcde"), to_word("fghij")), to_word("bbbbb"));
    assert_eq!(score([0, 0, 1, 1, 2], [1, 0, 0, 2, 2]), to_word("ygybg"));
}

#[test]
fn every_pattern_has_its_own_code() {
    let marks = [b'b', b'y', b'g'];
    let mut seen = [false; 243];
    for a in marks {
        for b in marks {
            for c in marks {
                for d in marks {
                    for e in marks {
                        let code = scoreToInt(&[a, b, c, d, e]) as usize;
                        assert!(!seen[code]);
                        seen[code] = true;
                    }
                }
            }
        }
    }
    assert!(seen.iter().all(|s| *s));
    assert_eq!(scoreToInt(&to_word("bybgg")), 3 + 54 + 162);
    assert_eq!(scoreToInt(&to_word("xyzzy")), 3 + 81);
}
