//! The word store: a dictionary of valid words with usage weights.
//!
//! The store is a list of `(word, weight)` entries whose invariant
//! ([`Data::wf`]) keeps every word non-empty, lower-case and unique.
//! Membership is case-insensitive: every query is lowercased first.

use vstd::prelude::*;

use crate::text::{is_lower, lower_seq, to_lower};

verus! {

/// What `serde_json::from_str` parses a word map out of a string: `None`
/// when the text is not a serialized map from words to weights.
pub uninterp spec fn json_word_map(s: Seq<char>) -> Option<Map<Seq<char>, nat>>;

#[verifier::external_type_specification]
#[verifier::external_body]
pub struct ExSerdeJsonError(serde_json::Error);

/// The entry list holds exactly the pairs of the map, each word once, in
/// some order.
pub open spec fn entries_match_map(es: Seq<(String, usize)>, m: Map<Seq<char>, nat>) -> bool {
    &&& forall|i: int|
        0 <= i < es.len() ==> m.contains_key((#[trigger] es[i]).0@) && m[es[i].0@] == es[i].1 as nat
    &&& forall|k: Seq<char>|
        #[trigger] m.contains_key(k) ==> exists|i: int| 0 <= i < es.len() && (#[trigger] es[i]).0@
            == k
    &&& forall|i: int, j: int|
        0 <= i < j < es.len() ==> (#[trigger] es[i]).0@ != (#[trigger] es[j]).0@
}

/// Relies on `serde_json::from_str` deserializing a JSON object into a
/// `HashMap<String, usize>`: whether and what it parses is a function of the
/// text alone, and a `HashMap`'s keys are unique.  The order of the returned
/// entry list is arbitrary.
#[verifier::external_body]
fn parse_word_map(s: &str) -> (r: Result<Vec<(String, usize)>, serde_json::Error>)
    ensures
        r is Ok <==> json_word_map(s@) is Some,
        r is Ok ==> entries_match_map(r->Ok_0@, json_word_map(s@)->Some_0),
{
    match serde_json::from_str::<std::collections::HashMap<String, usize>>(s) {
        Ok(m) => Ok(m.into_iter().collect()),
        Err(e) => Err(e),
    }
}

/// Relies on `rand::random_range`: a value drawn from `0..bound`, which is
/// non-empty because `bound >= 1`.
#[verifier::external_body]
fn random_below(bound: usize) -> (r: usize)
    requires
        bound >= 1,
    ensures
        r < bound,
{
    rand::random_range(0..bound)
}

/// The words of length `len` among the entries, in entry order.
pub open spec fn candidate_keys(es: Seq<(String, usize)>, len: nat) -> Seq<Seq<char>>
    decreases es.len(),
{
    if es.len() == 0 {
        Seq::empty()
    } else {
        let prefix = candidate_keys(es.drop_last(), len);
        if es.last().0@.len() == len {
            prefix.push(es.last().0@)
        } else {
            prefix
        }
    }
}

/// Appending entry `i` extends the candidate list by that entry's word
/// exactly when the word has the requested length.
proof fn lemma_candidate_take_succ(es: Seq<(String, usize)>, len: nat, i: int)
    requires
        0 <= i < es.len(),
    ensures
        candidate_keys(es.take(i + 1), len) == if es[i].0@.len() == len {
            candidate_keys(es.take(i), len).push(es[i].0@)
        } else {
            candidate_keys(es.take(i), len)
        },
{
    assert(es.take(i + 1).drop_last() =~= es.take(i));
    assert(es.take(i + 1).last() == es[i]);
}

/// Every candidate is the word of some entry and has the requested length.
pub proof fn lemma_candidate_is_key(es: Seq<(String, usize)>, len: nat, x: int)
    requires
        0 <= x < candidate_keys(es, len).len(),
    ensures
        candidate_keys(es, len)[x].len() == len,
        exists|i: int|
            0 <= i < es.len() && (#[trigger] es[i]).0@ == candidate_keys(es, len)[x],
    decreases es.len(),
{
    let cands = candidate_keys(es, len);
    let prefix = candidate_keys(es.drop_last(), len);
    if es.last().0@.len() == len && x == prefix.len() {
        assert(es[es.len() - 1].0@ == cands[x]);
    } else {
        lemma_candidate_is_key(es.drop_last(), len, x);
        let i = choose|i: int|
            0 <= i < es.drop_last().len() && (#[trigger] es.drop_last()[i]).0@ == prefix[x];
        assert(es[i].0@ == cands[x]);
    }
}

/// No word of the requested length could be selected from the store.
#[derive(Clone, Copy, PartialEq, Eq, Structural, Debug)]
pub struct NoCandidateError;

/// A dictionary source was unreadable or did not hold a valid word map.
#[derive(Clone, Copy, PartialEq, Eq, Structural, Debug)]
pub enum LoadError {
    /// The source could not be read at all (only ever produced by callers
    /// that do the reading; parsing itself never reports it).
    Unreadable,
    /// The source text is not a serialized map from non-empty words to
    /// weights.
    Malformed,
}

/// The dictionary: words mapped to non-negative usage weights.
#[derive(Clone, PartialEq, Eq, Debug)]
pub struct Data(pub Vec<(String, usize)>);

impl Data {
    /// The word of the entry at index `i`.
    pub open spec fn key_at(self, i: int) -> Seq<char> {
        self.0@[i].0@
    }

    /// Case-sensitive spec-level membership (queries are lowercased first).
    pub open spec fn has_key(self, k: Seq<char>) -> bool {
        exists|i: int| 0 <= i < self.0@.len() && self.key_at(i) == k
    }

    /// The index of the entry holding `k`; meaningful only when `has_key(k)`.
    pub open spec fn index_of(self, k: Seq<char>) -> int {
        choose|i: int| 0 <= i < self.0@.len() && self.key_at(i) == k
    }

    /// The weight stored for `k`; meaningful only when `has_key(k)`.
    pub open spec fn weight_of(self, k: Seq<char>) -> nat {
        self.0@[self.index_of(k)].1 as nat
    }

    /// Invariant: every word is non-empty, already lower-case, and occurs
    /// in at most one entry.
    pub open spec fn wf(self) -> bool {
        &&& forall|i: int|
            0 <= i < self.0@.len() ==> (#[trigger] self.key_at(i)).len() > 0 && is_lower(
                self.key_at(i),
            )
        &&& forall|i: int, j: int|
            0 <= i < j < self.0@.len() ==> self.key_at(i) != self.key_at(j)
    }

    /// In a well-formed store an entry's index is determined by its word.
    pub proof fn lemma_index_of(self, i: int)
        requires
            self.wf(),
            0 <= i < self.0@.len(),
        ensures
            self.index_of(self.key_at(i)) == i,
            self.weight_of(self.key_at(i)) == self.0@[i].1 as nat,
    {
        let k = self.key_at(i);
        assert(self.has_key(k));
        let j = self.index_of(k);
        if i < j {
            assert(self.key_at(i) != self.key_at(j));
        } else if j < i {
            assert(self.key_at(j) != self.key_at(i));
        }
    }

    /// A store with no words at all.
    pub fn new() -> (r: Data)
        ensures
            r.wf(),
            forall|k: Seq<char>| !r.has_key(k),
            r.0@.len() == 0,
    {
        Data(Vec::new())
    }

    /// Case-insensitive membership test.
    #[verifier::loop_isolation(false)]
    pub fn contains(&self, word: &str) -> (r: bool)
        ensures
            r == self.has_key(lower_seq(word@)),
    {
        let low = to_lower(word);
        let n = self.0.len();
        let mut i: usize = 0;
        while i < n
            invariant
                n == self.0@.len(),
                0 <= i <= n,
                forall|j: int| 0 <= j < i ==> self.key_at(j) != low@,
            decreases n - i,
        {
            if self.0[i].0 == low {
                proof {
                    assert(self.key_at(i as int) == lower_seq(word@));
                }
                return true;
            }
            i += 1;
        }
        false
    }

    /// Adds or overwrites the entry for `word`, stored in lower case.
    #[verifier::loop_isolation(false)]
    pub fn insert(&mut self, word: &str, weight: usize)
        requires
            old(self).wf(),
            word@.len() > 0,
        ensures
            final(self).wf(),
            final(self).has_key(lower_seq(word@)),
            final(self).weight_of(lower_seq(word@)) == weight as nat,
            forall|k: Seq<char>|
                k != lower_seq(word@) ==> (final(self).has_key(k) <==> old(self).has_key(k)),
            forall|k: Seq<char>|
                k != lower_seq(word@) && old(self).has_key(k) ==> final(self).weight_of(k) == old(
                    self,
                ).weight_of(k),
    {
        let low = to_lower(word);
        proof {
            crate::text::lemma_lower_idempotent(word@);
        }
        let n = self.0.len();
        let mut i: usize = 0;
        while i < n
            invariant
                *self == *old(self),
                n == self.0@.len(),
                0 <= i <= n,
                low@ == lower_seq(word@),
                forall|j: int| 0 <= j < i ==> self.key_at(j) != low@,
            decreases n - i,
        {
            if self.0[i].0 == low {
                let ghost prev = *self;
                proof {
                    assert(prev.key_at(i as int) == lower_seq(word@));
                }
                self.0[i] = (low, weight);
                proof {
                    assert(self.key_at(i as int) == lower_seq(word@));
                    assert forall|j: int| 0 <= j < self.0@.len() && j != i implies #[trigger] self
                        .key_at(j) == prev.key_at(j) by {
                        assert(self.0@[j] == prev.0@[j]);
                    }
                    assert forall|j: int|
                        0 <= j < self.0@.len() && j != i implies #[trigger] self.key_at(j)
                        != lower_seq(word@) by {
                        if j < i as int {
                            assert(prev.key_at(j) != prev.key_at(i as int));
                        } else {
                            assert(prev.key_at(i as int) != prev.key_at(j));
                        }
                    }
                    assert(self.wf());
                    self.lemma_index_of(i as int);
                    assert forall|k: Seq<char>| k != lower_seq(word@) implies (self.has_key(k)
                        <==> prev.has_key(k)) by {
                        if prev.has_key(k) {
                            let j = prev.index_of(k);
                            assert(self.key_at(j) == k);
                        }
                        if self.has_key(k) {
                            let j = self.index_of(k);
                            assert(prev.key_at(j) == k);
                        }
                    }
                    assert forall|k: Seq<char>|
                        k != lower_seq(word@) && prev.has_key(k) implies self.weight_of(k)
                        == prev.weight_of(k) by {
                        let j = prev.index_of(k);
                        prev.lemma_index_of(j);
                        assert(self.key_at(j) == k);
                        self.lemma_index_of(j);
                    }
                }
                return ;
            }
            i += 1;
        }
        let ghost prev = *self;
        self.0.push((low, weight));
        proof {
            assert(self.key_at(n as int) == lower_seq(word@));
            assert forall|j: int| 0 <= j < n implies #[trigger] self.key_at(j) == prev.key_at(
                j,
            ) by {
                assert(self.0@[j] == prev.0@[j]);
            }
            assert(self.wf());
            self.lemma_index_of(n as int);
            assert forall|k: Seq<char>| k != lower_seq(word@) implies (self.has_key(k)
                <==> prev.has_key(k)) by {
                if prev.has_key(k) {
                    let j = prev.index_of(k);
                    assert(self.key_at(j) == k);
                }
                if self.has_key(k) {
                    let j = self.index_of(k);
                    assert(j < n);
                    assert(prev.key_at(j) == k);
                }
            }
            assert forall|k: Seq<char>| k != lower_seq(word@) && prev.has_key(k) implies self
                .weight_of(k) == prev.weight_of(k) by {
                let j = prev.index_of(k);
                prev.lemma_index_of(j);
                assert(self.key_at(j) == k);
                self.lemma_index_of(j);
            }
        }
    }

    /// The deterministic half of random selection: the `idx`-th word of
    /// length `len`, in entry order, or `NoCandidateError` when fewer than
    /// `idx + 1` such words exist.
    #[verifier::loop_isolation(false)]
    pub fn select_word(&self, len: usize, idx: usize) -> (r: Result<String, NoCandidateError>)
        ensures
            ({
                let cands = candidate_keys(self.0@, len as nat);
                &&& idx < cands.len() ==> r is Ok && r->Ok_0@ == cands[idx as int]
                &&& idx >= cands.len() ==> r is Err
                &&& r is Ok ==> self.has_key(r->Ok_0@) && r->Ok_0@.len() == len as nat
            }),
    {
        let ghost es = self.0@;
        let n = self.0.len();
        let mut found: Option<String> = None;
        let mut c: usize = 0;
        let mut i: usize = 0;
        while i < n
            invariant
                0 <= i <= n,
                c == candidate_keys(es.take(i as int), len as nat).len(),
                c <= i,
                match found {
                    Some(w) => {
                        &&& idx < c
                        &&& w@ == candidate_keys(es.take(i as int), len as nat)[idx as int]
                    },
                    None => c <= idx,
                },
            decreases n - i,
        {
            proof {
                lemma_candidate_take_succ(es, len as nat, i as int);
            }
            let klen = self.0[i].0.as_str().unicode_len();
            if klen == len {
                if c == idx {
                    found = Some(self.0[i].0.clone());
                }
                c += 1;
            }
            i += 1;
        }
        proof {
            assert(es.take(n as int) =~= es);
        }
        match found {
            Some(w) => {
                proof {
                    lemma_candidate_is_key(es, len as nat, idx as int);
                    let i = choose|i: int|
                        0 <= i < es.len() && (#[trigger] es[i]).0@ == candidate_keys(
                            es,
                            len as nat,
                        )[idx as int];
                    assert(self.key_at(i) == w@);
                }
                Ok(w)
            },
            None => Err(NoCandidateError),
        }
    }

    /// Picks a word of length `len` at random.  Faithful to its source, the
    /// random index is drawn from `[0, len)` rather than from the candidate
    /// count, so success is only guaranteed when at least `len` words of
    /// that length exist; with no such word it always fails.
    pub fn get_random_word(&self, len: usize) -> (r: Result<String, NoCandidateError>)
        ensures
            ({
                let cands = candidate_keys(self.0@, len as nat);
                &&& r is Ok ==> self.has_key(r->Ok_0@) && r->Ok_0@.len() == len as nat
                &&& cands.len() >= len && len > 0 ==> r is Ok
                &&& cands.len() == 0 || len == 0 ==> r is Err
            }),
    {
        if len == 0 {
            return Err(NoCandidateError);
        }
        let idx = random_below(len);
        self.select_word(len, idx)
    }

    /// Builds a store from parsed entries, lowercasing every word; an entry
    /// with an empty word makes the whole list malformed.
    #[verifier::loop_isolation(false)]
    pub fn from_entries(entries: &Vec<(String, usize)>) -> (r: Result<Data, LoadError>)
        ensures
            r is Err ==> r->Err_0 == LoadError::Malformed,
            r is Err <==> exists|i: int|
                0 <= i < entries@.len() && (#[trigger] entries@[i]).0@.len() == 0,
            r is Ok ==> r->Ok_0.wf(),
            r is Ok ==> forall|k: Seq<char>|
                r->Ok_0.has_key(k) <==> exists|i: int|
                    0 <= i < entries@.len() && lower_seq((#[trigger] entries@[i]).0@) == k,
            r is Ok ==> forall|k: Seq<char>|
                r->Ok_0.has_key(k) ==> exists|i: int|
                    0 <= i < entries@.len() && lower_seq((#[trigger] entries@[i]).0@) == k
                        && r->Ok_0.weight_of(k) == entries@[i].1 as nat,
    {
        let ghost es = entries@;
        let mut d = Data::new();
        let n = entries.len();
        let mut i: usize = 0;
        while i < n
            invariant
                0 <= i <= n,
                d.wf(),
                forall|j: int| 0 <= j < i ==> (#[trigger] es[j]).0@.len() > 0,
                forall|k: Seq<char>|
                    d.has_key(k) <==> exists|j: int|
                        0 <= j < i && lower_seq((#[trigger] es[j]).0@) == k,
                forall|k: Seq<char>|
                    d.has_key(k) ==> exists|j: int|
                        0 <= j < i && lower_seq((#[trigger] es[j]).0@) == k && d.weight_of(k)
                            == es[j].1 as nat,
            decreases n - i,
        {
            if entries[i].0.as_str().is_empty() {
                return Err(LoadError::Malformed);
            }
            let ghost prev = d;
            d.insert(&entries[i].0, entries[i].1);
            proof {
                let newk = lower_seq(es[i as int].0@);
                assert forall|k: Seq<char>| d.has_key(k) implies exists|j: int|
                    0 <= j < i + 1 && lower_seq((#[trigger] es[j]).0@) == k by {
                    if k == newk {
                        assert(lower_seq(es[i as int].0@) == k);
                    } else {
                        assert(prev.has_key(k));
                    }
                }
                assert forall|k: Seq<char>| d.has_key(k) implies exists|j: int|
                    0 <= j < i + 1 && lower_seq((#[trigger] es[j]).0@) == k && d.weight_of(k)
                        == es[j].1 as nat by {
                    if k == newk {
                        assert(lower_seq(es[i as int].0@) == k && d.weight_of(k) == es[i as int].1
                            as nat);
                    } else {
                        assert(prev.has_key(k));
                        let j = choose|j: int|
                            0 <= j < i && lower_seq((#[trigger] es[j]).0@) == k && prev.weight_of(k)
                                == es[j].1 as nat;
                        assert(lower_seq(es[j].0@) == k && d.weight_of(k) == es[j].1 as nat);
                    }
                }
            }
            i += 1;
        }
        Ok(d)
    }

    /// Parses a serialized word map, normalizing every word to lower case.
    /// The text is malformed when it does not parse or when it maps the
    /// empty word to a weight.
    pub fn from_json(s: &str) -> (r: Result<Data, LoadError>)
        ensures
            ({
                let m = json_word_map(s@);
                &&& r is Err ==> r->Err_0 == LoadError::Malformed
                &&& r is Err <==> (m is None || m->Some_0.contains_key(Seq::empty()))
                &&& r is Ok ==> r->Ok_0.wf()
                &&& r is Ok ==> forall|k: Seq<char>|
                    r->Ok_0.has_key(k) <==> exists|k0: Seq<char>|
                        #[trigger] m->Some_0.contains_key(k0) && lower_seq(k0) == k
                &&& r is Ok ==> forall|k: Seq<char>|
                    r->Ok_0.has_key(k) ==> exists|k0: Seq<char>|
                        #[trigger] m->Some_0.contains_key(k0) && lower_seq(k0) == k
                            && r->Ok_0.weight_of(k) == m->Some_0[k0]
            }),
    {
        let entries = match parse_word_map(s) {
            Ok(entries) => entries,
            Err(_) => {
                return Err(LoadError::Malformed);
            },
        };
        let ghost es = entries@;
        let ghost m = json_word_map(s@)->Some_0;
        let r = Self::from_entries(&entries);
        proof {
            if exists|i: int| 0 <= i < es.len() && (#[trigger] es[i]).0@.len() == 0 {
                let i = choose|i: int| 0 <= i < es.len() && (#[trigger] es[i]).0@.len() == 0;
                assert(es[i].0@ =~= Seq::<char>::empty());
                assert(m.contains_key(Seq::empty()));
            }
            if m.contains_key(Seq::empty()) {
                let i = choose|i: int| 0 <= i < es.len() && (#[trigger] es[i]).0@ == Seq::<
                    char,
                >::empty();
                assert(es[i].0@.len() == 0);
            }
            if r is Ok {
                let d = r->Ok_0;
                assert forall|k: Seq<char>| d.has_key(k) implies exists|k0: Seq<char>|
                    #[trigger] m.contains_key(k0) && lower_seq(k0) == k by {
                    let i = choose|i: int|
                        0 <= i < es.len() && lower_seq((#[trigger] es[i]).0@) == k;
                    assert(m.contains_key(es[i].0@));
                }
                assert forall|k: Seq<char>|
                    (exists|k0: Seq<char>| #[trigger] m.contains_key(k0) && lower_seq(k0) == k)
                        implies d.has_key(k) by {
                    let k0 = choose|k0: Seq<char>|
                        #[trigger] m.contains_key(k0) && lower_seq(k0) == k;
                    let i = choose|i: int| 0 <= i < es.len() && (#[trigger] es[i]).0@ == k0;
                    assert(lower_seq(es[i].0@) == k);
                }
                assert forall|k: Seq<char>| d.has_key(k) implies exists|k0: Seq<char>|
                    #[trigger] m.contains_key(k0) && lower_seq(k0) == k && d.weight_of(k) == m[k0] by {
                    let i = choose|i: int|
                        0 <= i < es.len() && lower_seq((#[trigger] es[i]).0@) == k && d.weight_of(k)
                            == es[i].1 as nat;
                    assert(m.contains_key(es[i].0@) && m[es[i].0@] == es[i].1 as nat);
                }
            }
        }
        r
    }
}

} // verus!
