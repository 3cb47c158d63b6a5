use wordle_board::data::Data;
use wordle_board::{
    Board, BoardStateCharacter, CharacterState, GuessError, WinTrait,
};

fn store_with(words: &[&str]) -> Data {
    let mut d = Data::new();
    for w in words {
        d.insert(w, 1);
    }
    d
}

fn states_of(row: &[BoardStateCharacter]) -> Vec<Option<CharacterState>> {
    row.iter().map(|c| c.1).collect()
}

#[test]
fn eval_crane_crate() {
    let data = store_with(&["crane", "crate"]);
    let mut board = Board::new_with_word(data, "crane");
    assert_eq!(board.add_guess("crate"), Ok(()));
    let state = board.get_state();
    assert_eq!(state.0.len(), 1);
    assert_eq!(
        states_of(&state.0[0]),
        vec![
            Some(CharacterState::Correct),
            Some(CharacterState::Correct),
            Some(CharacterState::Correct),
            Some(CharacterState::NotFound),
            Some(CharacterState::Correct),
        ]
    );
    assert_eq!(state.0[0][0], BoardStateCharacter('c', Some(CharacterState::Correct)));
    assert!(!board.has_won());
    assert!(!state.has_won());
}

#[test]
fn eval_allot_llama_duplicate_letters() {
    // The first-occurrence rule does not consume matched secret letters:
    // every 'l' and 'a' of the guess is judged against the secret's first
    // 'l' (position 1) and first 'a' (position 0).
    let data = store_with(&["allot", "llama"]);
    let mut board = Board::new_with_word(data, "allot");
    assert_eq!(board.add_guess("llama"), Ok(()));
    let state = board.get_state();
    assert_eq!(
        states_of(&state.0[0]),
        vec![
            Some(CharacterState::WrongPosition),
            Some(CharacterState::Correct),
            Some(CharacterState::WrongPosition),
            Some(CharacterState::NotFound),
            Some(CharacterState::WrongPosition),
        ]
    );
}

#[test]
fn exact_guess_wins() {
    let data = store_with(&["crane"]);
    let mut board = Board::new_with_word(data, "crane");
    assert_eq!(board.add_guess("crane"), Ok(()));
    assert!(board.has_won());
    let state = board.get_state();
    assert!(state.has_won());
    assert!(state.0[0].iter().all(|c| c.1 == Some(CharacterState::Correct)));
}

#[test]
fn add_guess_not_in_store() {
    let data = store_with(&["crane", "slate"]);
    let mut board = Board::new_with_word(data, "crane");
    assert_eq!(board.add_guess("zzzzz"), Err(GuessError::NotFound));
    assert_eq!(board.add_guess("ZZZZZ"), Err(GuessError::NotFound));
    assert_eq!(board.guesses.len(), 0);
    // Membership is case-insensitive: an upper-case rendering of a stored
    // word is accepted and recorded lowercased.
    assert_eq!(board.add_guess("SLATE"), Ok(()));
    assert_eq!(board.guesses, vec!["slate".to_string()]);
}

#[test]
fn add_guess_wrong_size() {
    let data = store_with(&["crane", "cat"]);
    let mut board = Board::new_with_word(data, "crane");
    assert_eq!(board.add_guess("cat"), Err(GuessError::WrongSize));
    assert_eq!(board.guesses.len(), 0);
}

#[test]
fn membership_is_checked_before_length() {
    let data = store_with(&["crane"]);
    let mut board = Board::new_with_word(data, "crane");
    // "xy" is both absent and of the wrong length: membership decides.
    assert_eq!(board.add_guess("xy"), Err(GuessError::NotFound));
}

#[test]
fn reset_preserves_length_and_clears_guesses() {
    let data = store_with(&["crane", "slate", "audio", "pride", "ghost"]);
    let mut board = Board::new_with_word(data, "crane");
    assert_eq!(board.add_guess("slate"), Ok(()));
    assert_eq!(board.guesses.len(), 1);
    assert_eq!(board.reset(), Ok(()));
    assert_eq!(board.word.len(), 5);
    assert!(board.guesses.is_empty());
    assert!(board.data.contains(&board.word));
}

#[test]
fn key_state_close_against_slate() {
    let data = store_with(&["slate", "close"]);
    let mut board = Board::new_with_word(data, "slate");
    assert_eq!(board.add_guess("close"), Ok(()));
    // 's' stands at position 3 of the guess but first occurs at position 0
    // of the secret: present, wrong position.
    assert_eq!(board.get_key_state('s'), Some(CharacterState::WrongPosition));
    assert_eq!(board.get_key_state('S'), Some(CharacterState::WrongPosition));
    // 'l' and 'e' stand exactly at the secret's first occurrence.
    assert_eq!(board.get_key_state('l'), Some(CharacterState::Correct));
    assert_eq!(board.get_key_state('e'), Some(CharacterState::Correct));
    // 'o' and 'c' are not in the secret at all.
    assert_eq!(board.get_key_state('o'), Some(CharacterState::NotFound));
    assert_eq!(board.get_key_state('c'), Some(CharacterState::NotFound));
    // A letter never guessed has no state, even one the secret holds.
    assert_eq!(board.get_key_state('a'), None);
    assert_eq!(board.get_key_state('z'), None);
}

#[test]
fn key_state_correct_wins_over_wrong_position() {
    let data = store_with(&["slate", "stoat"]);
    let mut board = Board::new_with_word(data, "slate");
    // 's' at position 0 of "stoat" is the secret's first 's': Correct,
    // even though later occurrences would be judged differently.
    assert_eq!(board.add_guess("stoat"), Ok(()));
    assert_eq!(board.get_key_state('s'), Some(CharacterState::Correct));
}

#[test]
fn empty_board_accepts_nothing() {
    let data = Data::new();
    let mut board = Board::new_empty_board(data);
    assert_eq!(board.word, "");
    assert!(!board.has_won());
    assert_eq!(board.get_state().0.len(), 0);
    assert_eq!(board.add_guess("word"), Err(GuessError::NotFound));
}

#[test]
fn guess_error_messages() {
    assert_eq!(GuessError::WrongSize.message(), "Wrong Size");
    assert_eq!(GuessError::NotFound.message(), "Not Found");
}
