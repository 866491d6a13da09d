use wordle_solver::constraint::{ConstraintState, ALL_LETTERS};
use wordle_solver::word::to_word;

#[test]
fn a_new_state_admits_every_word() {
    let state = ConstraintState::new();
    assert_eq!(state.possible, [ALL_LETTERS; 5]);
    assert_eq!(state.required, 0);
    assert!(state.is_consistent());
    assert!(state.could_be_answer(&to_word("silly")));
    assert!(state.could_be_answer(&to_word("zzzzz")));
    assert!(!state.could_be_answer(&[b'S', b'i', b'l', b'l', b'y']));
    assert!(!state.could_be_answer(&[b'a', b'b', 0, b'd', b'e']));
}

#[test]
fn refining_takes_in_each_kind_of_mark() {
    let state = ConstraintState::new();
    // silly against daily: b y b g g
    let next = state.refine(&to_word("silly"), &to_word("bybgg"));
    let bit = |c: u8| 1u32 << (c - b'a');
    // s is ruled out everywhere
    for p in 0..5 {
        assert_eq!(next.possible[p] & bit(b's'), 0);
    }
    // i is not at position 1, but stays possible elsewhere
    assert_eq!(next.possible[1] & bit(b'i'), 0);
    assert_ne!(next.possible[0] & bit(b'i'), 0);
    // l is black at position 2 but green at 3: only position 2 loses it
    assert_eq!(next.possible[2] & bit(b'l'), 0);
    assert_eq!(next.possible[3], bit(b'l'));
    assert_eq!(next.possible[4], bit(b'y'));
    assert_eq!(next.required, bit(b'i') | bit(b'l') | bit(b'y'));
    assert!(next.is_consistent());
    assert!(next.could_be_answer(&to_word("daily")));
    assert!(!next.could_be_answer(&to_word("silly")));
    assert!(!next.could_be_answer(&to_word("dolly")));
    assert!(!next.could_be_answer(&to_word("daisy")));
}

#[test]
fn advancing_keeps_the_answer() {
    let answers = ["daily", "hotel", "silly", "crane", "eerie", "llama"];
    let guesses = ["silly", "hotel", "crane", "eerie", "llama", "abide"];
    for a in answers {
        let answer = to_word(a);
        let mut state = ConstraintState::new();
        for g in guesses {
            let next = state.advance(&to_word(g), &answer);
            assert!(next.is_consistent());
            assert!(next.could_be_answer(&answer));
            // nothing that was excluded comes back
            for w in answers {
                if next.could_be_answer(&to_word(w)) {
                    assert!(state.could_be_answer(&to_word(w)));
                }
            }
            state = next;
        }
        assert!(state.could_be_answer(&answer));
    }
}

#[test]
fn advancing_is_refining_by_the_score() {
    let state = ConstraintState::new();
    let by_answer = state.advance(&to_word("silly"), &to_word("hotel"));
    let by_colors = state.refine(&to_word("silly"), &to_word("bbybb"));
    assert_eq!(by_answer, by_colors);
    assert!(by_answer.same(&by_colors));
    assert!(!by_answer.same(&state));
}

#[test]
fn contradicting_feedback_empties_a_position() {
    let state = ConstraintState::new();
    let first = state.refine(&to_word("aaaaa"), &to_word("gbbbb"));
    assert!(first.is_consistent());
    let second = first.refine(&to_word("bbbbb"), &to_word("gbbbb"));
    assert!(!second.is_consistent());
}

#[test]
fn different_guesses_can_teach_the_same() {
    let answer = to_word("abcde");
    let start = ConstraintState::new();
    let one = start.advance(&to_word("fghij"), &answer).advance(&to_word("klmno"), &answer);
    let other = start.advance(&to_word("klmno"), &answer).advance(&to_word("fghij"), &answer);
    assert!(one.same(&other));
}
