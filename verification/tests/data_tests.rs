use wordle_board::data::{Data, LoadError, NoCandidateError};
use wordle_board::utils::{get_path_assets, get_path_src};
use wordle_board::Board;

#[test]
fn insert_and_contains_are_case_insensitive() {
    let mut d = Data::new();
    d.insert("Crane", 7);
    assert!(d.contains("crane"));
    assert!(d.contains("CRANE"));
    assert!(d.contains("cRaNe"));
    assert!(!d.contains("slate"));
    // Stored lowercased, once.
    assert_eq!(d.0, vec![("crane".to_string(), 7)]);
}

#[test]
fn insert_overwrites_weights() {
    let mut d = Data::new();
    d.insert("crane", 1);
    d.insert("CRANE", 9);
    assert_eq!(d.0, vec![("crane".to_string(), 9)]);
}

#[test]
fn select_word_is_deterministic_in_entry_order() {
    let mut d = Data::new();
    d.insert("aaaaa", 1);
    d.insert("cat", 1);
    d.insert("bbbbb", 1);
    assert_eq!(d.select_word(5, 0), Ok("aaaaa".to_string()));
    assert_eq!(d.select_word(5, 1), Ok("bbbbb".to_string()));
    assert_eq!(d.select_word(5, 2), Err(NoCandidateError));
    assert_eq!(d.select_word(3, 0), Ok("cat".to_string()));
}

#[test]
fn random_word_has_requested_length_and_membership() {
    let mut d = Data::new();
    for w in ["crane", "slate", "audio", "pride", "ghost", "cat"] {
        d.insert(w, 1);
    }
    // Five words of length five exist, so selection is guaranteed.
    let w = d.get_random_word(5).unwrap();
    assert_eq!(w.len(), 5);
    assert!(d.contains(&w));
}

#[test]
fn random_word_without_candidates_fails() {
    let mut d = Data::new();
    d.insert("cat", 1);
    assert_eq!(d.get_random_word(5), Err(NoCandidateError));
    assert_eq!(d.get_random_word(0), Err(NoCandidateError));
    assert_eq!(Data::new().get_random_word(4), Err(NoCandidateError));
}

#[test]
fn new_with_length_draws_from_store() {
    let mut d = Data::new();
    for w in ["crane", "slate", "audio", "pride", "ghost"] {
        d.insert(w, 1);
    }
    let board = Board::new_with_length(d, 5).unwrap();
    assert_eq!(board.word.len(), 5);
    assert!(board.guesses.is_empty());
    assert!(board.data.contains(&board.word));
    assert_eq!(Board::new_with_length(Data::new(), 5), Err(NoCandidateError));
}

#[test]
fn from_json_parses_a_word_map() {
    let d = Data::from_json("{\"crane\": 3, \"slate\": 0}").unwrap();
    assert!(d.contains("crane"));
    assert!(d.contains("slate"));
    assert!(!d.contains("audio"));
    assert_eq!(d.0.len(), 2);
}

#[test]
fn from_json_normalizes_case() {
    let d = Data::from_json("{\"HeLLo\": 2}").unwrap();
    assert!(d.contains("hello"));
    assert!(d.contains("HELLO"));
    assert_eq!(d.0, vec![("hello".to_string(), 2)]);
}

#[test]
fn from_json_rejects_malformed_text() {
    assert_eq!(Data::from_json("not json"), Err(LoadError::Malformed));
    assert_eq!(Data::from_json("[1, 2]"), Err(LoadError::Malformed));
    assert_eq!(Data::from_json("{\"crane\": -1}"), Err(LoadError::Malformed));
    // A mapping with an empty word breaks the store's invariant.
    assert_eq!(Data::from_json("{\"\": 3}"), Err(LoadError::Malformed));
}

#[test]
fn relative_paths() {
    assert_eq!(get_path_src("data.rs"), "src/data.rs");
    assert_eq!(get_path_assets("words.json"), "assets/words.json");
}
