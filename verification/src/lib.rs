//! A verified word-guessing game engine.
//!
//! A [`Board`] holds a secret word, the guesses accepted so far and the
//! dictionary ([`data::Data`]) the guesses are validated against.  The
//! per-character feedback (correct position, present but misplaced, absent)
//! is derived from the secret word and the guesses on demand.

pub mod data;
pub mod text;
pub mod utils;

use vstd::prelude::*;

use crate::data::{Data, NoCandidateError};
use crate::text::{is_lower, lower_char, lower_char_exec, lower_seq, to_lower};

verus! {

/// Relationship of one guessed character to the secret word at one position.
#[derive(Clone, Copy, PartialEq, Eq, Structural, PartialOrd, Ord, Debug, Hash)]
pub enum CharacterState {
    Correct,
    WrongPosition,
    NotFound,
}

/// One evaluated character of a guess: the character and its state.
#[derive(Clone, Copy, PartialEq, Eq, Structural, PartialOrd, Ord, Debug, Hash)]
pub struct BoardStateCharacter(pub char, pub Option<CharacterState>);

/// The evaluated board: one row of evaluated characters per guess, in
/// guess order.
#[derive(Clone, PartialEq, Eq, PartialOrd, Ord, Debug, Hash)]
pub struct BoardState(pub Vec<Vec<BoardStateCharacter>>);

impl View for BoardState {
    type V = Seq<Seq<BoardStateCharacter>>;

    open spec fn view(&self) -> Seq<Seq<BoardStateCharacter>> {
        self.0@.map_values(|row: Vec<BoardStateCharacter>| row@)
    }
}

/// `j` is the first position at which `c` occurs in `w`.
pub open spec fn is_first_match(w: Seq<char>, c: char, j: int) -> bool {
    &&& 0 <= j < w.len()
    &&& w[j] == c
    &&& forall|k: int| 0 <= k < j ==> w[k] != c
}

/// The state of a guessed character `c` standing at position `i`: the first
/// occurrence of `c` in the secret word decides between `Correct` (it is at
/// `i`) and `WrongPosition` (it is elsewhere); with no occurrence the state
/// is `NotFound`.  Repeated secret letters are deliberately not consumed:
/// only the first occurrence ever decides.
pub open spec fn char_state_spec(w: Seq<char>, c: char, i: int) -> CharacterState {
    if exists|j: int| is_first_match(w, c, j) {
        if is_first_match(w, c, i) {
            CharacterState::Correct
        } else {
            CharacterState::WrongPosition
        }
    } else {
        CharacterState::NotFound
    }
}

/// `row` is the evaluation of guess `g` against secret word `w`: one entry
/// per guessed character, pairing the character with its state.
pub open spec fn row_matches(w: Seq<char>, g: Seq<char>, row: Seq<BoardStateCharacter>) -> bool {
    &&& row.len() == g.len()
    &&& forall|i: int|
        0 <= i < g.len() ==> (#[trigger] row[i]).0 == g[i] && row[i].1 == Some(
            char_state_spec(w, g[i], i),
        )
}

/// Finds the first position of `c` in `w`, scanning left to right.
#[verifier::loop_isolation(false)]
fn find_first(w: &str, c: char) -> (r: Option<usize>)
    ensures
        match r {
            Some(j) => is_first_match(w@, c, j as int),
            None => forall|j: int| 0 <= j < w@.len() ==> w@[j] != c,
        },
{
    let n = w.unicode_len();
    let mut j: usize = 0;
    while j < n
        invariant
            0 <= j <= n,
            n == w@.len(),
            forall|k: int| 0 <= k < j ==> w@[k] != c,
        decreases n - j,
    {
        if w.get_char(j) == c {
            return Some(j);
        }
        j += 1;
    }
    None
}

/// Evaluates one guess against the secret word, character by character.
#[verifier::loop_isolation(false)]
pub fn eval_row(word: &str, guess: &str) -> (r: Vec<BoardStateCharacter>)
    ensures
        row_matches(word@, guess@, r@),
{
    let n = guess.unicode_len();
    let mut row: Vec<BoardStateCharacter> = Vec::new();
    let mut i: usize = 0;
    while i < n
        invariant
            0 <= i <= n,
            n == guess@.len(),
            row@.len() == i,
            forall|k: int|
                0 <= k < i ==> (#[trigger] row@[k]).0 == guess@[k] && row@[k].1 == Some(
                    char_state_spec(word@, guess@[k], k),
                ),
        decreases n - i,
    {
        let c = guess.get_char(i);
        let state = match find_first(word, c) {
            Some(j) => {
                if j == i {
                    CharacterState::Correct
                } else {
                    proof {
                        if is_first_match(word@, c, i as int) {
                            if j < i {
                                assert(word@[j as int] != c);
                            } else {
                                assert(word@[i as int] != c);
                            }
                        }
                    }
                    CharacterState::WrongPosition
                }
            },
            None => CharacterState::NotFound,
        };
        row.push(BoardStateCharacter(c, Some(state)));
        i += 1;
    }
    row
}

/// Whether `t` occurs anywhere among the accepted guesses.
pub open spec fn seen_in_guesses(gs: Seq<String>, t: char) -> bool {
    exists|gi: int, i: int|
        #![trigger gs[gi]@[i]]
        0 <= gi < gs.len() && 0 <= i < gs[gi]@.len() && gs[gi]@[i] == t
}

/// Some guess holds `t` at the very position where the secret word first
/// holds `t`, so that occurrence was evaluated `Correct`.
pub open spec fn correct_seen_in_guesses(w: Seq<char>, gs: Seq<String>, t: char) -> bool {
    exists|gi: int, i: int|
        #![trigger gs[gi]@[i]]
        0 <= gi < gs.len() && 0 <= i < gs[gi]@.len() && gs[gi]@[i] == t && is_first_match(w, t, i)
}

/// The best known state of letter `t` over all guesses: `Correct` and
/// `NotFound` are authoritative as soon as any occurrence of `t` was
/// evaluated so, `WrongPosition` is reported otherwise, and a letter never
/// guessed has no state.
pub open spec fn key_state_spec(w: Seq<char>, gs: Seq<String>, t: char) -> Option<CharacterState> {
    if !seen_in_guesses(gs, t) {
        None
    } else if forall|j: int| 0 <= j < w.len() ==> w[j] != t {
        Some(CharacterState::NotFound)
    } else if correct_seen_in_guesses(w, gs, t) {
        Some(CharacterState::Correct)
    } else {
        Some(CharacterState::WrongPosition)
    }
}

/// A rejected guess: wrong length, or not a dictionary word.
#[derive(Clone, Copy, PartialEq, Eq, Structural, Debug)]
pub enum GuessError {
    WrongSize,
    NotFound,
}

impl GuessError {
    /// A short human-readable description of the error.
    pub fn message(&self) -> (r: &'static str)
        ensures
            *self is WrongSize ==> r@ == "Wrong Size"@,
            *self is NotFound ==> r@ == "Not Found"@,
    {
        match self {
            GuessError::WrongSize => "Wrong Size",
            GuessError::NotFound => "Not Found",
        }
    }
}

/// Every character of the row was evaluated `Correct`.
pub open spec fn row_all_correct(row: Seq<BoardStateCharacter>) -> bool {
    forall|i: int| 0 <= i < row.len() ==> (#[trigger] row[i]).1 == Some(CharacterState::Correct)
}

/// The one way to ask "is this game won?", shared by the board (which
/// compares guesses with the secret word) and the evaluated board state
/// (which looks for an all-`Correct` row).
pub trait WinTrait {
    /// What winning means for the implementing type.
    spec fn win_spec(&self) -> bool;

    /// Decides `win_spec`.
    fn has_won(&self) -> (r: bool)
        ensures
            r == self.win_spec(),
    ;
}

impl WinTrait for BoardState {
    open spec fn win_spec(&self) -> bool {
        exists|gi: int| 0 <= gi < self@.len() && row_all_correct(self@[gi])
    }

    #[verifier::loop_isolation(false)]
    fn has_won(&self) -> (r: bool)
        ensures
            r == self.win_spec(),
    {
        let n = self.0.len();
        let mut gi: usize = 0;
        while gi < n
            invariant
                0 <= gi <= n,
                n == self.0@.len(),
                forall|k: int| 0 <= k < gi ==> !row_all_correct(self@[k]),
            decreases n - gi,
        {
            let row = &self.0[gi];
            let m = row.len();
            let mut failed = false;
            let mut ci: usize = 0;
            while ci < m
                invariant
                    0 <= ci <= m,
                    m == row@.len(),
                    row@ == self@[gi as int],
                    !failed <==> forall|k: int|
                        0 <= k < ci ==> (#[trigger] row@[k]).1 == Some(CharacterState::Correct),
                decreases m - ci,
            {
                match row[ci].1 {
                    Some(CharacterState::Correct) => {},
                    _ => {
                        failed = true;
                    },
                }
                ci += 1;
            }
            if !failed {
                assert(row_all_correct(self@[gi as int]));
                return true;
            }
            gi += 1;
        }
        false
    }
}

/// One game: the secret word, the accepted guesses, and the dictionary
/// the guesses are validated against.
#[derive(Debug, Clone, PartialEq, Eq)]
pub struct Board {
    pub guesses: Vec<String>,
    pub word: String,
    pub data: Data,
}

impl Board {
    /// Invariant: the dictionary is well-formed, the secret word is
    /// lower-case, and every accepted guess is a lower-case dictionary
    /// word of the secret word's length.
    pub open spec fn wf(self) -> bool {
        &&& self.data.wf()
        &&& is_lower(self.word@)
        &&& forall|i: int|
            0 <= i < self.guesses@.len() ==> {
                &&& (#[trigger] self.guesses@[i])@.len() == self.word@.len()
                &&& is_lower(self.guesses@[i]@)
                &&& self.data.has_key(self.guesses@[i]@)
            }
    }

    /// A board with no secret word and no guesses over the given dictionary.
    pub fn new_empty_board(data: Data) -> (r: Board)
        requires
            data.wf(),
        ensures
            r.wf(),
            r.word@.len() == 0,
            r.guesses@.len() == 0,
            r.data == data,
    {
        proof {
            assert(lower_seq(Seq::<char>::empty()) =~= Seq::<char>::empty());
        }
        Board { guesses: Vec::new(), word: String::new(), data }
    }

    /// Makes `word` the secret word (lowercased, and registered in the
    /// dictionary so that it is itself a legal guess) and clears the guesses.
    pub fn reset_with_word(&mut self, word: &str)
        requires
            old(self).wf(),
            word@.len() > 0,
        ensures
            final(self).wf(),
            final(self).word@ == lower_seq(word@),
            final(self).guesses@.len() == 0,
            final(self).data.has_key(lower_seq(word@)),
            old(self).data.has_key(lower_seq(word@)) ==> final(self).data == old(self).data,
            !old(self).data.has_key(lower_seq(word@)) ==> {
                &&& final(self).data.weight_of(lower_seq(word@)) == 0
                &&& forall|k: Seq<char>|
                    k != lower_seq(word@) ==> (final(self).data.has_key(k) <==> old(self).data.has_key(k))
                &&& forall|k: Seq<char>|
                    k != lower_seq(word@) && old(self).data.has_key(k) ==> final(self).data.weight_of(k) == old(self).data.weight_of(k)
            },
    {
        if !self.data.contains(word) {
            self.data.insert(word, 0);
        }
        self.word = to_lower(word);
        self.guesses.clear();
        proof {
            crate::text::lemma_lower_idempotent(word@);
        }
    }

    /// Picks a fresh secret word of length `len` from the dictionary and
    /// clears the guesses; fails (leaving the board unchanged) when no word
    /// can be selected.
    pub fn reset_with_length(&mut self, len: usize) -> (r: Result<(), NoCandidateError>)
        requires
            old(self).wf(),
        ensures
            final(self).wf(),
            r is Ok ==> {
                &&& final(self).word@.len() == len as nat
                &&& final(self).guesses@.len() == 0
                &&& final(self).data.has_key(final(self).word@)
                &&& final(self).data == old(self).data
            },
            r is Err ==> *final(self) == *old(self),
            crate::data::candidate_keys(old(self).data.0@, len as nat).len() >= len && len > 0
                ==> r is Ok,
            crate::data::candidate_keys(old(self).data.0@, len as nat).len() == 0 || len == 0
                ==> r is Err,
    {
        match self.data.get_random_word(len) {
            Ok(w) => {
                proof {
                    let k = w@;
                    let i = choose|i: int|
                        0 <= i < self.data.0@.len() && self.data.key_at(i) == k;
                    assert(self.data.key_at(i).len() > 0);
                    assert(is_lower(k));
                }
                self.reset_with_word(w.as_str());
                Ok(())
            },
            Err(e) => Err(e),
        }
    }

    /// Re-rolls a secret word of the current word's length.
    pub fn reset(&mut self) -> (r: Result<(), NoCandidateError>)
        requires
            old(self).wf(),
        ensures
            final(self).wf(),
            r is Ok ==> {
                &&& final(self).word@.len() == old(self).word@.len()
                &&& final(self).guesses@.len() == 0
                &&& final(self).data.has_key(final(self).word@)
                &&& final(self).data == old(self).data
            },
            r is Err ==> *final(self) == *old(self),
            ({
                let cands = crate::data::candidate_keys(old(self).data.0@, old(self).word@.len());
                &&& cands.len() >= old(self).word@.len() && old(self).word@.len() > 0 ==> r is Ok
                &&& cands.len() == 0 || old(self).word@.len() == 0 ==> r is Err
            }),
    {
        let len = self.word.as_str().unicode_len();
        self.reset_with_length(len)
    }

    /// A board over `data` whose secret word is `word` (lowercased, and
    /// registered in the dictionary so that it is itself a legal guess).
    pub fn new_with_word(data: Data, word: &str) -> (r: Board)
        requires
            data.wf(),
            word@.len() > 0,
        ensures
            r.wf(),
            r.word@ == lower_seq(word@),
            r.guesses@.len() == 0,
            r.data.has_key(lower_seq(word@)),
            data.has_key(lower_seq(word@)) ==> r.data == data,
            !data.has_key(lower_seq(word@)) ==> {
                &&& r.data.weight_of(lower_seq(word@)) == 0
                &&& forall|k: Seq<char>|
                    k != lower_seq(word@) ==> (r.data.has_key(k) <==> data.has_key(k))
                &&& forall|k: Seq<char>|
                    k != lower_seq(word@) && data.has_key(k) ==> r.data.weight_of(k)
                        == data.weight_of(k)
            },
    {
        let mut board = Self::new_empty_board(data);
        board.reset_with_word(word);
        board
    }

    /// A board over `data` with a randomly selected secret word of length
    /// `len`; fails when no word can be selected.
    pub fn new_with_length(data: Data, len: usize) -> (r: Result<Board, NoCandidateError>)
        requires
            data.wf(),
        ensures
            r is Ok ==> {
                &&& r->Ok_0.wf()
                &&& r->Ok_0.word@.len() == len as nat
                &&& r->Ok_0.guesses@.len() == 0
                &&& r->Ok_0.data == data
                &&& r->Ok_0.data.has_key(r->Ok_0.word@)
            },
            crate::data::candidate_keys(data.0@, len as nat).len() >= len && len > 0 ==> r is Ok,
            crate::data::candidate_keys(data.0@, len as nat).len() == 0 || len == 0 ==> r is Err,
    {
        let mut board = Self::new_empty_board(data);
        match board.reset_with_length(len) {
            Ok(()) => Ok(board),
            Err(e) => Err(e),
        }
    }

    /// Validates a guess and, when it is a dictionary word of the right
    /// length, appends its lowercased form to the guesses.  Membership is
    /// checked before the length, as the feedback messages require.
    pub fn add_guess(&mut self, input: &str) -> (r: Result<(), GuessError>)
        requires
            old(self).wf(),
        ensures
            final(self).wf(),
            final(self).word == old(self).word,
            final(self).data == old(self).data,
            !old(self).data.has_key(lower_seq(input@)) ==> r == Err::<(), GuessError>(
                GuessError::NotFound,
            ) && *final(self) == *old(self),
            old(self).data.has_key(lower_seq(input@)) && input@.len() != old(self).word@.len()
                ==> r == Err::<(), GuessError>(GuessError::WrongSize) && *final(self) == *old(self),
            old(self).data.has_key(lower_seq(input@)) && input@.len() == old(self).word@.len()
                ==> {
                &&& r == Ok::<(), GuessError>(())
                &&& final(self).guesses@.len() == old(self).guesses@.len() + 1
                &&& final(self).guesses@[old(self).guesses@.len() as int]@ == lower_seq(input@)
                &&& forall|i: int|
                    0 <= i < old(self).guesses@.len() ==> final(self).guesses@[i] == old(self).guesses@[i]
            },
    {
        if self.data.contains(input) {
            if input.unicode_len() == self.word.as_str().unicode_len() {
                let low = to_lower(input);
                proof {
                    crate::text::lemma_lower_idempotent(input@);
                }
                self.guesses.push(low);
                Ok(())
            } else {
                Err(GuessError::WrongSize)
            }
        } else {
            Err(GuessError::NotFound)
        }
    }

    /// The best known state of letter `c` (lowercased) across all guesses,
    /// for keyboard hints: an occurrence evaluated `Correct` or `NotFound`
    /// settles it, one evaluated `WrongPosition` is provisional.
    #[verifier::loop_isolation(false)]
    pub fn get_key_state(&self, c: char) -> (r: Option<CharacterState>)
        ensures
            r == key_state_spec(self.word@, self.guesses@, lower_char(c)),
    {
        let ghost w = self.word@;
        let ghost gs = self.guesses@;
        let t = lower_char_exec(c);
        let n = self.guesses.len();
        let mut best: Option<CharacterState> = None;
        let mut gi: usize = 0;
        while gi < n
            invariant
                0 <= gi <= n,
                n == gs.len(),
                forall|g2: int, i2: int|
                    #![trigger gs[g2]@[i2]]
                    0 <= g2 < gi && 0 <= i2 < gs[g2]@.len() && gs[g2]@[i2] == t
                        ==> !is_first_match(w, t, i2),
                match best {
                    Some(s) => {
                        &&& s == CharacterState::WrongPosition
                        &&& seen_in_guesses(gs, t)
                        &&& exists|j: int| is_first_match(w, t, j)
                    },
                    None => forall|g2: int, i2: int|
                        #![trigger gs[g2]@[i2]]
                        0 <= g2 < gi && 0 <= i2 < gs[g2]@.len() ==> gs[g2]@[i2] != t,
                },
            decreases n - gi,
        {
            let guess = &self.guesses[gi];
            let m = guess.as_str().unicode_len();
            let mut i: usize = 0;
            while i < m
                invariant
                    0 <= i <= m,
                    m == gs[gi as int]@.len(),
                    guess@ == gs[gi as int]@,
                    gi < n,
                    forall|g2: int, i2: int|
                        #![trigger gs[g2]@[i2]]
                        0 <= g2 < gi && 0 <= i2 < gs[g2]@.len() && gs[g2]@[i2] == t
                            ==> !is_first_match(w, t, i2),
                    forall|i2: int|
                        0 <= i2 < i && (#[trigger] gs[gi as int]@[i2]) == t ==> !is_first_match(
                            w,
                            t,
                            i2,
                        ),
                    match best {
                        Some(s) => {
                            &&& s == CharacterState::WrongPosition
                            &&& seen_in_guesses(gs, t)
                            &&& exists|j: int| is_first_match(w, t, j)
                        },
                        None => (forall|g2: int, i2: int|
                            #![trigger gs[g2]@[i2]]
                            0 <= g2 < gi && 0 <= i2 < gs[g2]@.len() ==> gs[g2]@[i2] != t) && (
                        forall|i2: int| 0 <= i2 < i ==> (#[trigger] gs[gi as int]@[i2]) != t),
                    },
                decreases m - i,
            {
                let ch = guess.as_str().get_char(i);
                if ch == t {
                    match find_first(self.word.as_str(), t) {
                        None => {
                            proof {
                                assert(gs[gi as int]@[i as int] == t);
                                assert(seen_in_guesses(gs, t));
                            }
                            return Some(CharacterState::NotFound);
                        },
                        Some(j) => {
                            if j == i {
                                proof {
                                    assert(gs[gi as int]@[i as int] == t);
                                    assert(seen_in_guesses(gs, t));
                                    assert(correct_seen_in_guesses(w, gs, t));
                                }
                                return Some(CharacterState::Correct);
                            } else {
                                proof {
                                    if is_first_match(w, t, i as int) {
                                        if j < i {
                                            assert(w[j as int] != t);
                                        } else {
                                            assert(w[i as int] != t);
                                        }
                                    }
                                    assert(gs[gi as int]@[i as int] == t);
                                    assert(seen_in_guesses(gs, t));
                                }
                                best = Some(CharacterState::WrongPosition);
                            }
                        },
                    }
                }
                i += 1;
            }
            gi += 1;
        }
        proof {
            match best {
                Some(s) => {
                    assert(!correct_seen_in_guesses(w, gs, t));
                    let j = choose|j: int| is_first_match(w, t, j);
                    assert(!(forall|j2: int| 0 <= j2 < w.len() ==> w[j2] != t)) by {
                        assert(w[j] == t);
                    }
                },
                None => {
                    assert(!seen_in_guesses(gs, t));
                },
            }
        }
        best
    }

    /// Evaluates every guess against the secret word.
    #[verifier::loop_isolation(false)]
    pub fn get_state(&self) -> (r: BoardState)
        ensures
            r@.len() == self.guesses@.len(),
            forall|gi: int|
                0 <= gi < self.guesses@.len() ==> row_matches(
                    self.word@,
                    (#[trigger] self.guesses@[gi])@,
                    r@[gi],
                ),
    {
        let mut rows: Vec<Vec<BoardStateCharacter>> = Vec::new();
        let n = self.guesses.len();
        let mut gi: usize = 0;
        while gi < n
            invariant
                0 <= gi <= n,
                n == self.guesses@.len(),
                rows@.len() == gi,
                forall|k: int|
                    0 <= k < gi ==> row_matches(
                        self.word@,
                        (#[trigger] self.guesses@[k])@,
                        rows@[k]@,
                    ),
            decreases n - gi,
        {
            let row = eval_row(self.word.as_str(), self.guesses[gi].as_str());
            rows.push(row);
            gi += 1;
        }
        let r = BoardState(rows);
        proof {
            assert forall|k: int| 0 <= k < n implies row_matches(
                self.word@,
                (#[trigger] self.guesses@[k])@,
                r@[k],
            ) by {
                assert(r@[k] == rows@[k]@);
            }
        }
        r
    }
}

impl WinTrait for Board {
    open spec fn win_spec(&self) -> bool {
        exists|i: int| 0 <= i < self.guesses@.len() && (#[trigger] self.guesses@[i])@ == self.word@
    }

    #[verifier::loop_isolation(false)]
    fn has_won(&self) -> (r: bool)
        ensures
            r == self.win_spec(),
    {
        let n = self.guesses.len();
        let mut i: usize = 0;
        while i < n
            invariant
                0 <= i <= n,
                n == self.guesses@.len(),
                forall|k: int| 0 <= k < i ==> (#[trigger] self.guesses@[k])@ != self.word@,
            decreases n - i,
        {
            if self.guesses[i] == self.word {
                return true;
            }
            i += 1;
        }
        false
    }
}

/// No character occurs twice in `w`.
pub open spec fn distinct_chars(w: Seq<char>) -> bool {
    forall|i: int, j: int| 0 <= i < j < w.len() ==> w[i] != w[j]
}

/// A `Correct` state always means the guessed character equals the secret
/// word's character at that position, whatever the secret word is.
pub proof fn lemma_correct_means_match(w: Seq<char>, g: Seq<char>, i: int)
    requires
        0 <= i < g.len(),
    ensures
        char_state_spec(w, g[i], i) == CharacterState::Correct ==> i < w.len() && g[i] == w[i],
{
}

/// Over a secret word without repeated characters, a row evaluating a
/// same-length guess has one entry per guessed character, and an entry is
/// `Correct` exactly where guess and secret agree.
pub proof fn lemma_eval_correct_iff(w: Seq<char>, g: Seq<char>, row: Seq<BoardStateCharacter>)
    requires
        row_matches(w, g, row),
        g.len() == w.len(),
        distinct_chars(w),
    ensures
        row.len() == g.len(),
        forall|i: int|
            0 <= i < g.len() ==> ((#[trigger] row[i]).1 == Some(CharacterState::Correct) <==> g[i]
                == w[i]),
{
    assert forall|i: int|
        0 <= i < g.len() implies ((#[trigger] row[i]).1 == Some(CharacterState::Correct) <==> g[i]
        == w[i]) by {
        if g[i] == w[i] {
            assert(is_first_match(w, g[i], i));
        }
        if row[i].1 == Some(CharacterState::Correct) {
            lemma_correct_means_match(w, g, i);
        }
    }
}

/// Guessing a secret word without repeated characters exactly makes every
/// entry of the evaluated row `Correct`.
pub proof fn lemma_exact_guess_all_correct(w: Seq<char>, row: Seq<BoardStateCharacter>)
    requires
        row_matches(w, w, row),
        distinct_chars(w),
    ensures
        row_all_correct(row),
{
    lemma_eval_correct_iff(w, w, row);
}

/// On a well-formed board whose secret word has no repeated characters the
/// two win detectors agree: some accepted guess equals the secret word
/// exactly when some evaluated row is all `Correct`.
pub proof fn lemma_win_detectors_agree(b: Board, s: BoardState)
    requires
        b.wf(),
        distinct_chars(b.word@),
        s@.len() == b.guesses@.len(),
        forall|gi: int|
            0 <= gi < b.guesses@.len() ==> row_matches(
                b.word@,
                (#[trigger] b.guesses@[gi])@,
                s@[gi],
            ),
    ensures
        b.win_spec() <==> s.win_spec(),
{
    let w = b.word@;
    if b.win_spec() {
        let i = choose|i: int|
            0 <= i < b.guesses@.len() && (#[trigger] b.guesses@[i])@ == b.word@;
        lemma_exact_guess_all_correct(w, s@[i]);
        assert(0 <= i < s@.len() && row_all_correct(s@[i]));
    }
    if s.win_spec() {
        let gi = choose|gi: int| 0 <= gi < s@.len() && row_all_correct(s@[gi]);
        let g = b.guesses@[gi]@;
        lemma_eval_correct_iff(w, g, s@[gi]);
        assert forall|i: int| 0 <= i < w.len() implies g[i] == w[i] by {
            assert(s@[gi][i].1 == Some(CharacterState::Correct));
        }
        assert(g =~= w);
        assert(b.win_spec());
    }
}

/// Every occurrence of `t` in `w` is preceded by a first one.
proof fn lemma_first_match_exists(w: Seq<char>, t: char, j: int)
    requires
        0 <= j < w.len(),
        w[j] == t,
    ensures
        exists|j0: int| is_first_match(w, t, j0),
    decreases j,
{
    if forall|k: int| 0 <= k < j ==> w[k] != t {
        assert(is_first_match(w, t, j));
    } else {
        let k = choose|k: int| 0 <= k < j && w[k] == t;
        lemma_first_match_exists(w, t, k);
    }
}

/// The key state is the best state actually observed for `t`: a reported
/// state was the evaluation of some occurrence of `t` among the guesses,
/// an occurrence evaluated `Correct` always wins, and a letter never
/// guessed has no state.
pub proof fn lemma_key_state_observed(w: Seq<char>, gs: Seq<String>, t: char)
    ensures
        key_state_spec(w, gs, t) matches Some(s) ==> exists|gi: int, i: int|
            #![trigger gs[gi]@[i]]
            0 <= gi < gs.len() && 0 <= i < gs[gi]@.len() && gs[gi]@[i] == t && char_state_spec(
                w,
                t,
                i,
            ) == s,
        key_state_spec(w, gs, t) is None <==> !seen_in_guesses(gs, t),
        correct_seen_in_guesses(w, gs, t) ==> key_state_spec(w, gs, t) == Some(
            CharacterState::Correct,
        ),
{
    if seen_in_guesses(gs, t) {
        let (gi, i) = choose|gi: int, i: int|
            #![trigger gs[gi]@[i]]
            0 <= gi < gs.len() && 0 <= i < gs[gi]@.len() && gs[gi]@[i] == t;
        if forall|j: int| 0 <= j < w.len() ==> w[j] != t {
            assert forall|j0: int| !is_first_match(w, t, j0) by {
                if is_first_match(w, t, j0) {
                    assert(w[j0] == t);
                }
            }
            assert(char_state_spec(w, t, i) == CharacterState::NotFound);
            assert(gs[gi]@[i] == t && char_state_spec(w, t, i) == CharacterState::NotFound);
        } else {
            let j = choose|j: int| 0 <= j < w.len() && w[j] == t;
            lemma_first_match_exists(w, t, j);
            if correct_seen_in_guesses(w, gs, t) {
                let (g2, i2) = choose|g2: int, i2: int|
                    #![trigger gs[g2]@[i2]]
                    0 <= g2 < gs.len() && 0 <= i2 < gs[g2]@.len() && gs[g2]@[i2] == t
                        && is_first_match(w, t, i2);
                assert(char_state_spec(w, t, i2) == CharacterState::Correct);
                assert(gs[g2]@[i2] == t && char_state_spec(w, t, i2) == CharacterState::Correct);
            } else {
                if is_first_match(w, t, i) {
                    assert(correct_seen_in_guesses(w, gs, t));
                }
                assert(char_state_spec(w, t, i) == CharacterState::WrongPosition);
                assert(gs[gi]@[i] == t && char_state_spec(w, t, i)
                    == CharacterState::WrongPosition);
            }
        }
    }
}

} // verus!
