//! The matching engine: which dictionary words can be spelled from a
//! given hand of letters, under two letter-availability rules.

use crate::text::{chars_of, split, split_on};
use vstd::prelude::*;
use vstd::seq_lib::{
    lemma_multiset_commutative, to_multiset_build, to_multiset_contains, to_multiset_remove,
};

verus! {

/// Ouija rule: every distinct character of `word` occurs among `letters`.
/// How often a letter is available does not matter.
pub open spec fn spells_ouija(word: Seq<char>, letters: Seq<char>) -> bool {
    word.to_set().subset_of(letters.to_set())
}

/// How many times `c` occurs in `s`.
pub open spec fn occurrences(c: char, s: Seq<char>) -> nat {
    s.to_multiset().count(c)
}

/// Scrabble rule: each letter of the hand may be used at most once, so no
/// character occurs more often in `word` than in `letters`.
pub open spec fn spells_scrabble(word: Seq<char>, letters: Seq<char>) -> bool {
    forall|c: char| occurrences(c, word) <= occurrences(c, letters)
}

/// The Ouija rule for a fixed hand, as a predicate on words.
pub open spec fn ouija_rule(letters: Seq<char>) -> spec_fn(Seq<char>) -> bool {
    |word: Seq<char>| spells_ouija(word, letters)
}

/// The Scrabble rule for a fixed hand, as a predicate on words.
pub open spec fn scrabble_rule(letters: Seq<char>) -> spec_fn(Seq<char>) -> bool {
    |word: Seq<char>| spells_scrabble(word, letters)
}

/// The words of `dictionary` that the Ouija rule admits, in dictionary order.
pub open spec fn ouija_words(dictionary: Seq<Seq<char>>, letters: Seq<char>) -> Seq<Seq<char>> {
    dictionary.filter(ouija_rule(letters))
}

/// The words of `dictionary` that the Scrabble rule admits, in dictionary order.
pub open spec fn scrabble_words(dictionary: Seq<Seq<char>>, letters: Seq<char>) -> Seq<
    Seq<char>,
> {
    dictionary.filter(scrabble_rule(letters))
}

/// A word is among the Ouija matches exactly when it is a dictionary word
/// whose distinct characters all occur among the letters. In particular
/// every match is a dictionary word.
pub proof fn lemma_ouija_words_membership(
    dictionary: Seq<Seq<char>>,
    letters: Seq<char>,
    word: Seq<char>,
)
    ensures
        ouija_words(dictionary, letters).contains(word) <==> dictionary.contains(word)
            && word.to_set().subset_of(letters.to_set()),
{
    lemma_filter_membership(dictionary, ouija_rule(letters), word);
}

/// A word is among the Scrabble matches exactly when it is a dictionary
/// word that uses no character more often than the letters provide it.
pub proof fn lemma_scrabble_words_membership(
    dictionary: Seq<Seq<char>>,
    letters: Seq<char>,
    word: Seq<char>,
)
    ensures
        scrabble_words(dictionary, letters).contains(word) <==> dictionary.contains(word) && (
        forall|c: char| occurrences(c, word) <= occurrences(c, letters)),
{
    lemma_filter_membership(dictionary, scrabble_rule(letters), word);
}

/// The Scrabble rule is at least as strict as the Ouija rule.
pub proof fn lemma_scrabble_implies_ouija(word: Seq<char>, letters: Seq<char>)
    requires
        spells_scrabble(word, letters),
    ensures
        spells_ouija(word, letters),
{
    assert forall|c: char| word.to_set().contains(c) implies letters.to_set().contains(c) by {
        lemma_occurrences_contains(word, c);
        lemma_occurrences_contains(letters, c);
        assert(occurrences(c, word) <= occurrences(c, letters));
    }
}

/// For the same letters and dictionary, every Scrabble match is also an
/// Ouija match; indeed the Scrabble matches are the Ouija matches that
/// pass the Scrabble rule.
pub proof fn lemma_scrabble_words_within_ouija_words(
    dictionary: Seq<Seq<char>>,
    letters: Seq<char>,
)
    ensures
        forall|word: Seq<char>| #[trigger]
            scrabble_words(dictionary, letters).contains(word) ==> ouija_words(
                dictionary,
                letters,
            ).contains(word),
        scrabble_words(dictionary, letters) == ouija_words(dictionary, letters).filter(
            scrabble_rule(letters),
        ),
    decreases dictionary.len(),
{
    assert forall|word: Seq<char>| #[trigger]
        scrabble_words(dictionary, letters).contains(word) implies ouija_words(
        dictionary,
        letters,
    ).contains(word) by {
        lemma_scrabble_words_membership(dictionary, letters, word);
        lemma_scrabble_implies_ouija(word, letters);
        lemma_ouija_words_membership(dictionary, letters, word);
    }
    reveal(Seq::filter);
    if dictionary.len() > 0 {
        let shorter = dictionary.drop_last();
        let last = dictionary.last();
        lemma_scrabble_words_within_ouija_words(shorter, letters);
        if spells_scrabble(last, letters) {
            lemma_scrabble_implies_ouija(last, letters);
        }
        ouija_words(shorter, letters).lemma_filter_push(last, scrabble_rule(letters));
    }
}

/// No word among the Scrabble matches uses any character more often than
/// it occurs among the letters.
pub proof fn lemma_scrabble_words_respect_counts(
    dictionary: Seq<Seq<char>>,
    letters: Seq<char>,
    word: Seq<char>,
    c: char,
)
    requires
        scrabble_words(dictionary, letters).contains(word),
    ensures
        occurrences(c, word) <= occurrences(c, letters),
{
    lemma_scrabble_words_membership(dictionary, letters, word);
}

/// With no letters at hand, only the empty word can be spelled, so a
/// dictionary without an empty word yields no match under either rule.
pub proof fn lemma_no_letters_no_words(dictionary: Seq<Seq<char>>)
    requires
        forall|i: int| 0 <= i < dictionary.len() ==> (#[trigger] dictionary[i]).len() > 0,
    ensures
        ouija_words(dictionary, Seq::empty()) == Seq::<Seq<char>>::empty(),
        scrabble_words(dictionary, Seq::empty()) == Seq::<Seq<char>>::empty(),
{
    let none = Seq::<char>::empty();
    let matches = ouija_words(dictionary, none);
    if matches.len() > 0 {
        let word = matches[0];
        assert(matches.contains(word));
        lemma_ouija_words_membership(dictionary, none, word);
        let i = choose|i: int| 0 <= i < dictionary.len() && dictionary[i] == word;
        assert(word.contains(word[0]));
        assert(word.to_set().contains(word[0]));
        assert(none.to_set().contains(word[0]));
        assert(none.contains(word[0]));
    }
    lemma_scrabble_words_within_ouija_words(dictionary, none);
    let fewer = scrabble_words(dictionary, none);
    if fewer.len() > 0 {
        assert(fewer.contains(fewer[0]));
    }
    assert(matches =~= Seq::<Seq<char>>::empty());
    assert(fewer =~= Seq::<Seq<char>>::empty());
}

/// Membership in a filtered sequence: exactly the members that pass.
proof fn lemma_filter_membership(
    dictionary: Seq<Seq<char>>,
    rule: spec_fn(Seq<char>) -> bool,
    word: Seq<char>,
)
    ensures
        dictionary.filter(rule).contains(word) <==> dictionary.contains(word) && rule(word),
{
    let kept = dictionary.filter(rule);
    if kept.contains(word) {
        let j = choose|j: int| 0 <= j < kept.len() && kept[j] == word;
        dictionary.lemma_filter_pred(rule, j);
        dictionary.lemma_filter_contains_rev(rule, word);
    }
    if dictionary.contains(word) && rule(word) {
        let i = choose|i: int| 0 <= i < dictionary.len() && dictionary[i] == word;
        dictionary.lemma_filter_contains(rule, i);
    }
}

/// Finds the first position of `c` in `v`.
fn position(v: &Vec<char>, c: char) -> (found: Option<usize>)
    ensures
        match found {
            Some(p) => p < v.len() && v[p as int] == c,
            None => !v@.contains(c),
        },
{
    let mut i: usize = 0;
    while i < v.len()
        invariant
            i <= v.len(),
            forall|j: int| 0 <= j < i ==> v[j] != c,
        decreases v.len() - i,
    {
        if v[i] == c {
            return Some(i);
        }
        i += 1;
    }
    None
}

/// Decides the Ouija rule for one word.
pub fn can_spell_ouija(word: &str, letters: &Vec<char>) -> (ok: bool)
    ensures
        ok == spells_ouija(word@, letters@),
{
    for c in it: word.chars()
        invariant
            it.seq() == word@,
            forall|j: int| 0 <= j < it.index() ==> letters@.contains(word@[j]),
    {
        if position(letters, c).is_none() {
            proof {
                assert(word@.contains(c));
                assert(word@.to_set().contains(c));
                assert(!letters@.to_set().contains(c));
            }
            return false;
        }
    }
    proof {
        assert forall|c: char| word@.to_set().contains(c) implies letters@.to_set().contains(
            c,
        ) by {
            let j = choose|j: int| 0 <= j < word@.len() && word@[j] == c;
            assert(letters@.contains(word@[j]));
        }
    }
    true
}

/// Counting in a sequence that got one more element at its end.
proof fn lemma_occurrences_push(s: Seq<char>, c: char, x: char)
    ensures
        occurrences(x, s.push(c)) == occurrences(x, s) + if x == c {
            1nat
        } else {
            0nat
        },
{
    broadcast use vstd::multiset::group_multiset_axioms;

    to_multiset_build(s, c);
}

/// Counting in a sequence that lost one element.
proof fn lemma_occurrences_remove(s: Seq<char>, i: int, x: char)
    requires
        0 <= i < s.len(),
    ensures
        occurrences(x, s.remove(i)) == occurrences(x, s) - if x == s[i] {
            1int
        } else {
            0int
        },
{
    broadcast use vstd::multiset::group_multiset_axioms;

    to_multiset_remove(s, i);
    to_multiset_contains(s, s[i]);
}

/// The characters that occur in a sequence are those that are counted
/// at least once.
proof fn lemma_occurrences_contains(s: Seq<char>, x: char)
    ensures
        s.contains(x) <==> occurrences(x, s) > 0,
{
    to_multiset_contains(s, x);
}

/// Counting in a sequence made of two parts.
proof fn lemma_occurrences_concat(a: Seq<char>, b: Seq<char>, x: char)
    ensures
        occurrences(x, a + b) == occurrences(x, a) + occurrences(x, b),
{
    broadcast use vstd::multiset::group_multiset_axioms;

    lemma_multiset_commutative(a, b);
}

/// Decides the Scrabble rule for one word, by crossing one matching letter
/// off a working copy of the hand for every character of the word.
pub fn can_spell_scrabble(word: &str, letters: &Vec<char>) -> (ok: bool)
    ensures
        ok == spells_scrabble(word@, letters@),
{
    let mut hand: Vec<char> = letters.clone();
    proof {
        assert(hand@ == letters@);
        assert forall|x: char| occurrences(x, #[trigger] word@.take(0)) == 0 by {
            lemma_occurrences_contains(word@.take(0), x);
        }
    }
    for c in it: word.chars()
        invariant
            it.seq() == word@,
            forall|x: char|
                occurrences(x, hand@) + occurrences(x, #[trigger] word@.take(it.index()))
                    == occurrences(x, letters@),
    {
        let ghost used = word@.take(it.index());
        let ghost rest = word@.skip(it.index());
        proof {
            assert(word@ == used + rest);
            assert(rest[0] == c);
            assert(word@.take(it.index() + 1) == used.push(c));
        }
        match position(&hand, c) {
            Some(p) => {
                let ghost old_hand = hand@;
                hand.remove(p);
                proof {
                    assert forall|x: char|
                        occurrences(x, hand@) + occurrences(x, #[trigger] used.push(c))
                            == occurrences(x, letters@) by {
                        lemma_occurrences_remove(old_hand, p as int, x);
                        lemma_occurrences_push(used, c, x);
                        assert(occurrences(x, old_hand) + occurrences(x, used) == occurrences(
                            x,
                            letters@,
                        ));
                    }
                }
            },
            None => {
                proof {
                    lemma_occurrences_contains(hand@, c);
                    lemma_occurrences_contains(rest, c);
                    lemma_occurrences_concat(used, rest, c);
                    assert(occurrences(c, hand@) + occurrences(c, used) == occurrences(
                        c,
                        letters@,
                    ));
                    assert(occurrences(c, word@) > occurrences(c, letters@));
                }
                return false;
            },
        }
    }
    proof {
        assert(word@.take(word@.len() as int) == word@);
        assert forall|x: char| occurrences(x, word@) <= occurrences(x, letters@) by {
            assert(occurrences(x, hand@) + occurrences(x, word@.take(word@.len() as int))
                == occurrences(x, letters@));
        }
    }
    true
}

/// A solver that answers every request by scanning its whole dictionary.
pub struct NaiveSolver {
    words: Vec<String>,
}

impl View for NaiveSolver {
    type V = Seq<Seq<char>>;

    /// The dictionary: its words, in the order of the word list.
    closed spec fn view(&self) -> Seq<Seq<char>> {
        self.words.deep_view()
    }
}

impl NaiveSolver {
    /// Builds a solver over the word list `source`, which holds one word
    /// per line.
    pub fn new(source: &str) -> (solver: NaiveSolver)
        ensures
            solver@ == split_on(source@, '\n'),
    {
        NaiveSolver { words: split(source, '\n') }
    }

    /// Every dictionary word that can be spelled with the given letters
    /// when each letter may be used any number of times.
    pub fn valid_words_ouija(&self, letters: &str) -> (found: Vec<String>)
        ensures
            found.deep_view() == ouija_words(self@, letters@),
    {
        let hand = chars_of(letters);
        let mut found: Vec<String> = Vec::new();
        let ghost rule = ouija_rule(letters@);
        proof {
            assert(self@.take(0).filter(rule) == Seq::<Seq<char>>::empty()) by {
                reveal(Seq::filter);
            }
        }
        let mut i: usize = 0;
        while i < self.words.len()
            invariant
                i <= self.words.len(),
                hand@ == letters@,
                rule == ouija_rule(letters@),
                found.deep_view() == self@.take(i as int).filter(rule),
            decreases self.words.len() - i,
        {
            let word = &self.words[i];
            let ghost before = self@.take(i as int);
            proof {
                assert(self@.take(i + 1) == before.push(word@));
                before.lemma_filter_push(word@, rule);
            }
            if can_spell_ouija(word.as_str(), &hand) {
                let ghost old_found = found.deep_view();
                found.push(word.clone());
                assert(found.deep_view() == old_found.push(word@));
            }
            i += 1;
        }
        proof {
            assert(self@.take(i as int) == self@);
        }
        found
    }

    /// Every dictionary word that can be spelled with the given letters
    /// when each letter may be used at most once.
    pub fn valid_words_scrabble(&self, letters: &str) -> (found: Vec<String>)
        ensures
            found.deep_view() == scrabble_words(self@, letters@),
    {
        let hand = chars_of(letters);
        let mut found: Vec<String> = Vec::new();
        let ghost rule = scrabble_rule(letters@);
        proof {
            assert(self@.take(0).filter(rule) == Seq::<Seq<char>>::empty()) by {
                reveal(Seq::filter);
            }
        }
        let mut i: usize = 0;
        while i < self.words.len()
            invariant
                i <= self.words.len(),
                hand@ == letters@,
                rule == scrabble_rule(letters@),
                found.deep_view() == self@.take(i as int).filter(rule),
            decreases self.words.len() - i,
        {
            let word = &self.words[i];
            let ghost before = self@.take(i as int);
            proof {
                assert(self@.take(i + 1) == before.push(word@));
                before.lemma_filter_push(word@, rule);
            }
            if can_spell_scrabble(word.as_str(), &hand) {
                let ghost old_found = found.deep_view();
                found.push(word.clone());
                assert(found.deep_view() == old_found.push(word@));
            }
            i += 1;
        }
        proof {
            assert(self@.take(i as int) == self@);
        }
        found
    }
}

} // verus!
