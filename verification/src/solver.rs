//! The solver: which words of a dictionary a rack of letters can spell.

use vstd::prelude::*;
use vstd::multiset::Multiset;
use vstd::seq_lib::{to_multiset_build, to_multiset_contains, to_multiset_remove};
use crate::alphabet::{index_of, is_letter, letter_at, letter_index, letter_of, ALPHABET_SIZE};
use crate::dictionnary::{Dictionnary, Node};
use crate::text::string_of;
use crate::trie::{lemma_contains_letters, Trie};

verus! {

/// A rack can spell `w` if no letter occurs more often in `w` than on the rack.
pub open spec fn spellable(w: Seq<char>, rack: Multiset<char>) -> bool {
    w.to_multiset().subset_of(rack)
}

/// `w` is a word of `t` that the rack can spell.
pub open spec fn is_solution(t: Trie, rack: Multiset<char>, w: Seq<char>) -> bool {
    &&& w.len() > 0
    &&& t.contains(w)
    &&& spellable(w, rack)
}

/// The words of `t` that can be spelled with letters of `rack`, each letter
/// of the rack used at most once.
pub open spec fn solutions(t: Trie, rack: Seq<char>) -> Set<Seq<char>> {
    Set::new(|w: Seq<char>| is_solution(t, rack.to_multiset(), w))
}

/// Dictionary order: `a` comes strictly before `b`. A proper prefix comes
/// before its extensions.
pub open spec fn lex_lt(a: Seq<char>, b: Seq<char>) -> bool
    decreases a.len(),
{
    if b.len() == 0 {
        false
    } else if a.len() == 0 {
        true
    } else if a[0] != b[0] {
        a[0] < b[0]
    } else {
        lex_lt(a.drop_first(), b.drop_first())
    }
}

/// Each word comes strictly before the words behind it.
pub open spec fn strictly_sorted(words: Seq<Seq<char>>) -> bool {
    forall|i: int, j: int|
        0 <= i < j < words.len() ==> lex_lt(#[trigger] words[i], #[trigger] words[j])
}

/// The words of `t` that `rack` can spell, in dictionary order. The laws
/// `lemma_answers` and `lemma_sorted_unique` say that this is the one sorted
/// sequence that holds exactly `solutions(t, rack)`.
pub closed spec fn answers(t: Trie, rack: Seq<char>) -> Seq<Seq<char>> {
    search(t, rack.to_multiset(), 0)
}

/// The words of `words`, each behind `prefix`.
pub open spec fn extend(prefix: Seq<char>, words: Seq<Seq<char>>) -> Seq<Seq<char>> {
    words.map_values(|s: Seq<char>| prefix + s)
}

/// What a vector of letter vectors holds.
pub open spec fn views(words: Seq<Vec<char>>) -> Seq<Seq<char>> {
    words.map_values(|w: Vec<char>| w@)
}

/// What a vector of strings holds.
pub open spec fn texts(words: Seq<String>) -> Seq<Seq<char>> {
    words.map_values(|w: String| w@)
}

impl Dictionnary {
    /// The words of the dictionary that can be spelled with `letters`, each
    /// letter used at most once: every such word once, in dictionary order. A
    /// character of `letters` that is no letter of the alphabet spells nothing.
    pub fn get_words(&self, letters: Vec<char>) -> (words: Vec<String>)
        ensures
            texts(words@).to_set() == solutions(self@, letters@),
            texts(words@).no_duplicates(),
            strictly_sorted(texts(words@)),
            texts(words@) == answers(self@, letters@),
    {
        let found = self.root().get_words(Vec::new(), letters);
        let mut words: Vec<String> = Vec::new();
        let mut i: usize = 0;
        while i < found.len()
            invariant
                i <= found@.len(),
                texts(words@) == views(found@).take(i as int),
            decreases found@.len() - i,
        {
            let ghost before = words@;
            let word = string_of(&found[i]);
            words.push(word);
            assert(texts(words@) =~= texts(before).push(word@));
            assert(views(found@).take(i + 1) =~= views(found@).take(i as int).push(
                found@[i as int]@,
            ));
            i = i + 1;
        }
        proof {
            let listed = answers(self@, letters@);
            assert(views(found@).take(found@.len() as int) =~= views(found@));
            assert forall|k: int| 0 <= k < listed.len() implies extend(Seq::empty(), listed)[k]
                == listed[k] by {
                assert(Seq::<char>::empty() + listed[k] =~= listed[k]);
            }
            assert(extend(Seq::empty(), listed) =~= listed);
            self.lemma_view_wf();
            lemma_answers(self@, letters@);
        }
        words
    }
}

impl Node {
    /// The words below this node that `letters` can spell, each behind
    /// `current_word`, in dictionary order. A character of `letters` that is
    /// no letter of the alphabet spells nothing.
    pub fn get_words(&self, current_word: Vec<char>, letters: Vec<char>) -> (words: Vec<Vec<char>>)
        ensures
            views(words@) == extend(current_word@, answers(self@, letters@)),
            strictly_sorted(answers(self@, letters@)),
            answers(self@, letters@).no_duplicates(),
            answers(self@, letters@).to_set() == solutions(self@, letters@),
    {
        proof {
            self.lemma_view_wf();
            lemma_answers(self@, letters@);
        }
        let mut counts = tally(&letters);
        let mut prefix = current_word;
        let mut found: Vec<Vec<char>> = Vec::new();
        self.collect(&mut prefix, &mut counts, &mut found, Ghost(letters@.to_multiset()));
        assert(views(Seq::<Vec<char>>::empty()) =~= Seq::<Seq<char>>::empty());
        found
    }

    /// Appends to `found` the answers below this node for the letters counted
    /// in `counts`, each behind `prefix`; `prefix` and `counts` are handed back
    /// as they came.
    fn collect(
        &self,
        prefix: &mut Vec<char>,
        counts: &mut Vec<usize>,
        found: &mut Vec<Vec<char>>,
        Ghost(rack): Ghost<Multiset<char>>,
    )
        requires
            old(counts)@.len() == ALPHABET_SIZE,
            forall|i: int|
                0 <= i < ALPHABET_SIZE ==> (#[trigger] old(counts)@[i]) == rack.count(letter_at(i)),
        ensures
            final(prefix)@ == old(prefix)@,
            final(counts)@ == old(counts)@,
            views(final(found)@) == views(old(found)@) + extend(
                old(prefix)@,
                search(self@, rack, 0),
            ),
        decreases self@,
    {
        let ghost goal = views(found@) + extend(prefix@, search(self@, rack, 0));
        let mut i: usize = 0;
        while i < ALPHABET_SIZE
            invariant
                i <= ALPHABET_SIZE,
                prefix@ == old(prefix)@,
                counts@ == old(counts)@,
                counts@.len() == ALPHABET_SIZE,
                forall|k: int|
                    0 <= k < ALPHABET_SIZE ==> (#[trigger] counts@[k]) == rack.count(letter_at(k)),
                views(found@) + extend(prefix@, search(self@, rack, i as int)) == goal,
            decreases ALPHABET_SIZE - i,
        {
            let c = letter_of(i);
            let ghost before = views(found@);
            let ghost here = branch(self@, rack, c);
            let ghost later = search(self@, rack, i + 1);
            proof {
                lemma_extend_concat(prefix@, here, later);
            }
            if counts[i] > 0 {
                match self.child(c) {
                    Some(child) => {
                        let ghost below = search(child@, rack.remove(c), 0);
                        prefix.push(c);
                        if child.is_end_of_word() {
                            let word = prefix.clone();
                            assert(word@ =~= prefix@);
                            found.push(word);
                            assert(word@ =~= old(prefix)@ + seq![c]);
                            assert(views(found@) =~= before + seq![old(prefix)@ + seq![c]]);
                        }
                        counts[i] = counts[i] - 1;
                        assert forall|k: int| 0 <= k < ALPHABET_SIZE implies (#[trigger] counts@[k])
                            == rack.remove(c).count(letter_at(k)) by {
                            assert(old(counts)@[k] == rack.count(letter_at(k)));
                        }
                        child.collect(prefix, counts, found, Ghost(rack.remove(c)));
                        counts[i] = counts[i] + 1;
                        prefix.pop();
                        proof {
                            assert(prefix@ =~= old(prefix)@);
                            assert(counts@ =~= old(counts)@);
                            lemma_extend_prepend(prefix@, c, below);
                            if child@.terminal {
                                assert(extend(prefix@, seq![seq![c]]) =~= seq![prefix@ + seq![c]]);
                                lemma_extend_concat(prefix@, seq![seq![c]], prepend(c, below));
                            }
                            assert(views(found@) =~= before + extend(prefix@, here));
                        }
                    },
                    None => {},
                }
            }
            assert(views(found@) + extend(prefix@, later) =~= before + extend(
                prefix@,
                here + later,
            ));
            i = i + 1;
        }
        assert(search(self@, rack, ALPHABET_SIZE as int) =~= Seq::empty());
    }
}

/// How often each letter of the alphabet occurs in `letters`, by letter index.
fn tally(letters: &Vec<char>) -> (counts: Vec<usize>)
    ensures
        counts@.len() == ALPHABET_SIZE,
        forall|i: int|
            0 <= i < ALPHABET_SIZE ==> (#[trigger] counts@[i]) == letters@.to_multiset().count(
                letter_at(i),
            ),
{
    let mut counts: Vec<usize> = Vec::new();
    while counts.len() < ALPHABET_SIZE
        invariant
            counts@.len() <= ALPHABET_SIZE,
            forall|i: int| 0 <= i < counts@.len() ==> (#[trigger] counts@[i]) == 0,
        decreases ALPHABET_SIZE - counts@.len(),
    {
        counts.push(0);
    }
    let mut k: usize = 0;
    proof {
        letters@.take(0).to_multiset_ensures();
        assert forall|i: int| 0 <= i < ALPHABET_SIZE implies letters@.take(0).to_multiset().count(
            letter_at(i),
        ) == 0 by {
            assert(!letters@.take(0).contains(letter_at(i)));
        }
    }
    while k < letters.len()
        invariant
            k <= letters@.len(),
            counts@.len() == ALPHABET_SIZE,
            forall|i: int| 0 <= i < ALPHABET_SIZE ==> (#[trigger] counts@[i]) <= k,
            forall|i: int|
                0 <= i < ALPHABET_SIZE ==> (#[trigger] counts@[i]) == letters@.take(
                    k as int,
                ).to_multiset().count(letter_at(i)),
        decreases letters@.len() - k,
    {
        let ghost seen = letters@.take(k as int);
        proof {
            assert(letters@.take(k + 1) =~= seen.push(letters@[k as int]));
            to_multiset_build(seen, letters@[k as int]);
        }
        match index_of(letters[k]) {
            Some(j) => {
                counts[j] = counts[j] + 1;
            },
            None => {},
        }
        k = k + 1;
    }
    assert(letters@.take(letters@.len() as int) =~= letters@);
    counts
}

/// The answers are strictly sorted, hold no word twice, and hold a word
/// exactly if it is a word of the tree that the rack can spell.
pub proof fn lemma_answers(t: Trie, rack: Seq<char>)
    requires
        t.wf(),
    ensures
        strictly_sorted(answers(t, rack)),
        answers(t, rack).no_duplicates(),
        answers(t, rack).to_set() == solutions(t, rack),
{
    lemma_search_sorted(t, rack.to_multiset(), 0);
    lemma_sorted_no_duplicates(answers(t, rack));
    assert forall|w: Seq<char>| answers(t, rack).contains(w) <==> solutions(t, rack).contains(
        w,
    ) by {
        lemma_search_exact(t, rack.to_multiset(), 0, w);
        if is_solution(t, rack.to_multiset(), w) {
            lemma_contains_letters(t, w);
            assert(is_letter(w[0]));
        }
    }
    assert(answers(t, rack).to_set() =~= solutions(t, rack));
}

/// A strictly sorted sequence holds no word twice.
pub proof fn lemma_sorted_no_duplicates(words: Seq<Seq<char>>)
    requires
        strictly_sorted(words),
    ensures
        words.no_duplicates(),
{
    assert forall|i: int, j: int| 0 <= i < words.len() && 0 <= j < words.len() && i != j implies words[i]
        != words[j] by {
        lemma_lex_irreflexive(words[i]);
        if i < j {
            assert(lex_lt(words[i], words[j]));
        } else {
            assert(lex_lt(words[j], words[i]));
        }
    }
}

/// Two strictly sorted sequences that hold the same words are the same sequence.
pub proof fn lemma_sorted_unique(a: Seq<Seq<char>>, b: Seq<Seq<char>>)
    requires
        strictly_sorted(a),
        strictly_sorted(b),
        a.to_set() == b.to_set(),
    ensures
        a == b,
    decreases a.len(),
{
    if a.len() == 0 {
        if b.len() > 0 {
            assert(b.to_set().contains(b[0]));
            assert(a.contains(b[0]));
        }
        assert(a =~= b);
    } else {
        assert(a.to_set().contains(a.last()));
        assert(b.contains(a.last()));
        let j = choose|j: int| 0 <= j < b.len() && b[j] == a.last();
        assert(b.to_set().contains(b.last()));
        assert(a.contains(b.last()));
        let i = choose|i: int| 0 <= i < a.len() && a[i] == b.last();
        if j < b.len() - 1 && i < a.len() - 1 {
            assert(lex_lt(b[j], b[b.len() - 1]));
            assert(lex_lt(a[i], a[a.len() - 1]));
            lemma_lex_asymmetric(a.last(), b.last());
        }
        assert(a.last() == b.last());
        let x = a.last();
        let a0 = a.drop_last();
        let b0 = b.drop_last();
        assert(strictly_sorted(a0)) by {
            assert forall|i: int, j: int| 0 <= i < j < a0.len() implies lex_lt(
                #[trigger] a0[i],
                #[trigger] a0[j],
            ) by {
                assert(lex_lt(a[i], a[j]));
            }
        }
        assert(strictly_sorted(b0)) by {
            assert forall|i: int, j: int| 0 <= i < j < b0.len() implies lex_lt(
                #[trigger] b0[i],
                #[trigger] b0[j],
            ) by {
                assert(lex_lt(b[i], b[j]));
            }
        }
        lemma_lex_irreflexive(x);
        assert forall|w: Seq<char>| a0.contains(w) <==> b0.contains(w) by {
            if a0.contains(w) {
                let k = choose|k: int| 0 <= k < a0.len() && a0[k] == w;
                assert(lex_lt(a[k], a[a.len() - 1]));
                assert(a.to_set().contains(a[k]));
                assert(b.contains(w));
                let m = choose|m: int| 0 <= m < b.len() && b[m] == w;
                assert(b0[m] == w);
            }
            if b0.contains(w) {
                let k = choose|k: int| 0 <= k < b0.len() && b0[k] == w;
                assert(lex_lt(b[k], b[b.len() - 1]));
                assert(b.to_set().contains(b[k]));
                assert(a.contains(w));
                let m = choose|m: int| 0 <= m < a.len() && a[m] == w;
                assert(a0[m] == w);
            }
        }
        assert(a0.to_set() =~= b0.to_set());
        lemma_sorted_unique(a0, b0);
        assert(a =~= a0.push(x));
        assert(b =~= b0.push(x));
    }
}

/// The answers depend on the letters of the rack, not on their order.
pub proof fn lemma_rack_order(t: Trie, rack1: Seq<char>, rack2: Seq<char>)
    requires
        rack1.to_multiset() == rack2.to_multiset(),
    ensures
        solutions(t, rack1) == solutions(t, rack2),
        answers(t, rack1) == answers(t, rack2),
{
    assert(solutions(t, rack1) =~= solutions(t, rack2));
}

/// An empty rack spells no word.
pub proof fn lemma_empty_rack(t: Trie)
    ensures
        solutions(t, Seq::empty()) == Set::<Seq<char>>::empty(),
        answers(t, Seq::empty()) == Seq::<Seq<char>>::empty(),
{
    let rack = Seq::<char>::empty().to_multiset();
    Seq::<char>::empty().to_multiset_ensures();
    assert forall|c: char| rack.count(c) == 0 by {
        assert(!Seq::<char>::empty().contains(c));
    }
    assert forall|w: Seq<char>| !solutions(t, Seq::empty()).contains(w) by {
        if w.len() > 0 {
            lemma_spellable_step(w, rack);
        }
    }
    assert(solutions(t, Seq::empty()) =~= Set::<Seq<char>>::empty());
    lemma_empty_search(t, rack, 0);
}

/// Dictionary order is irreflexive.
pub proof fn lemma_lex_irreflexive(a: Seq<char>)
    ensures
        !lex_lt(a, a),
    decreases a.len(),
{
    if a.len() > 0 {
        lemma_lex_irreflexive(a.drop_first());
    }
}

/// Dictionary order is asymmetric.
pub proof fn lemma_lex_asymmetric(a: Seq<char>, b: Seq<char>)
    requires
        lex_lt(a, b),
    ensures
        !lex_lt(b, a),
    decreases a.len(),
{
    if a.len() > 0 && b.len() > 0 && a[0] == b[0] {
        lemma_lex_asymmetric(a.drop_first(), b.drop_first());
    }
}

/// The letters of a word are its first letter and the letters of the rest.
proof fn lemma_first_letter_count(w: Seq<char>)
    requires
        w.len() > 0,
    ensures
        w.to_multiset() == w.drop_first().to_multiset().insert(w[0]),
{
    to_multiset_remove(w, 0);
    to_multiset_contains(w, w[0]);
    assert(w.contains(w[0]));
    assert(w.remove(0) =~= w.drop_first());
}

/// A rack spells a word if it holds the first letter and, without that
/// letter, spells the rest.
pub proof fn lemma_spellable_step(w: Seq<char>, rack: Multiset<char>)
    requires
        w.len() > 0,
    ensures
        spellable(w, rack) <==> (rack.count(w[0]) > 0 && spellable(
            w.drop_first(),
            rack.remove(w[0]),
        )),
{
    lemma_first_letter_count(w);
    let rest = w.drop_first().to_multiset();
    let c = w[0];
    if spellable(w, rack) {
        assert(w.to_multiset().count(c) <= rack.count(c));
        assert forall|v: char| rest.count(v) <= rack.remove(c).count(v) by {
            assert(w.to_multiset().count(v) <= rack.count(v));
        }
    }
    if rack.count(c) > 0 && spellable(w.drop_first(), rack.remove(c)) {
        assert forall|v: char| w.to_multiset().count(v) <= rack.count(v) by {
            assert(rest.count(v) <= rack.remove(c).count(v));
        }
    }
}

/// The words of `words`, each behind the letter `c`.
spec fn prepend(c: char, words: Seq<Seq<char>>) -> Seq<Seq<char>> {
    words.map_values(|s: Seq<char>| seq![c] + s)
}

/// The answers that start with `c`: `c` alone where it ends a word, then the
/// answers below `c` for the rack without one `c`.
spec fn branch(t: Trie, rack: Multiset<char>, c: char) -> Seq<Seq<char>>
    decreases t, 0int,
{
    if t.children.contains_key(c) && rack.count(c) > 0 {
        let child = t.children[c];
        let deeper = prepend(c, search(child, rack.remove(c), 0));
        if child.terminal {
            seq![seq![c]] + deeper
        } else {
            deeper
        }
    } else {
        Seq::empty()
    }
}

/// The answers whose first letter has index `from` or more, letter by letter.
spec fn search(t: Trie, rack: Multiset<char>, from: int) -> Seq<Seq<char>>
    decreases t, ALPHABET_SIZE - from + 1,
{
    if 0 <= from < ALPHABET_SIZE {
        branch(t, rack, letter_at(from)) + search(t, rack, from + 1)
    } else {
        Seq::empty()
    }
}

/// Putting a prefix in front goes through concatenation.
proof fn lemma_extend_concat(prefix: Seq<char>, a: Seq<Seq<char>>, b: Seq<Seq<char>>)
    ensures
        extend(prefix, a + b) == extend(prefix, a) + extend(prefix, b),
{
    assert(extend(prefix, a + b) =~= extend(prefix, a) + extend(prefix, b));
}

/// A prefix in front of a letter is the prefix with the letter pushed.
proof fn lemma_extend_prepend(prefix: Seq<char>, c: char, words: Seq<Seq<char>>)
    ensures
        extend(prefix, prepend(c, words)) == extend(prefix.push(c), words),
{
    let a = extend(prefix, prepend(c, words));
    let b = extend(prefix.push(c), words);
    assert forall|i: int| 0 <= i < a.len() implies a[i] == b[i] by {
        assert(prefix + (seq![c] + words[i]) =~= prefix.push(c) + words[i]);
    }
    assert(a =~= b);
}

/// What a concatenation contains is what either part contains.
proof fn lemma_concat_contains<A>(a: Seq<A>, b: Seq<A>, x: A)
    ensures
        (a + b).contains(x) <==> (a.contains(x) || b.contains(x)),
{
    if a.contains(x) {
        let i = choose|i: int| 0 <= i < a.len() && a[i] == x;
        assert((a + b)[i] == x);
    }
    if b.contains(x) {
        let i = choose|i: int| 0 <= i < b.len() && b[i] == x;
        assert((a + b)[a.len() + i] == x);
    }
    if (a + b).contains(x) {
        let i = choose|i: int| 0 <= i < (a + b).len() && (a + b)[i] == x;
        if i < a.len() {
            assert(a[i] == x);
        } else {
            assert(b[i - a.len()] == x);
        }
    }
}

/// What `prepend` contains: `c` followed by a word of `words`.
proof fn lemma_prepend_contains(c: char, words: Seq<Seq<char>>, w: Seq<char>)
    ensures
        prepend(c, words).contains(w) <==> (w.len() > 0 && w[0] == c && words.contains(
            w.drop_first(),
        )),
{
    let p = prepend(c, words);
    if p.contains(w) {
        let i = choose|i: int| 0 <= i < p.len() && p[i] == w;
        assert(w == seq![c] + words[i]);
        assert(w.drop_first() =~= words[i]);
    }
    if w.len() > 0 && w[0] == c && words.contains(w.drop_first()) {
        let i = choose|i: int| 0 <= i < words.len() && words[i] == w.drop_first();
        assert(p[i] =~= w);
    }
}

/// The sequence of the one word `c` contains that word only.
proof fn lemma_singleton_contains(c: char, w: Seq<char>)
    ensures
        seq![seq![c]].contains(w) <==> w == seq![c],
{
    if seq![seq![c]].contains(w) {
        let i = choose|i: int| 0 <= i < seq![seq![c]].len() && seq![seq![c]][i] == w;
        assert(seq![seq![c]][i] == seq![c]);
    }
    if w == seq![c] {
        assert(seq![seq![c]][0] == w);
    }
}

/// Every rack spells the empty sequence.
proof fn lemma_empty_spellable(rack: Multiset<char>)
    ensures
        spellable(Seq::empty(), rack),
{
    Seq::<char>::empty().to_multiset_ensures();
    assert forall|v: char| Seq::<char>::empty().to_multiset().count(v) == 0 by {
        assert(!Seq::<char>::empty().contains(v));
    }
}

/// `branch` holds exactly the solutions that start with `c`.
proof fn lemma_branch_exact(t: Trie, rack: Multiset<char>, c: char, w: Seq<char>)
    requires
        t.wf(),
    ensures
        branch(t, rack, c).contains(w) <==> (is_solution(t, rack, w) && w[0] == c),
    decreases t, 0int,
{
    if w.len() > 0 && w[0] == c {
        lemma_spellable_step(w, rack);
    }
    if t.children.contains_key(c) && rack.count(c) > 0 {
        let child = t.children[c];
        let below = search(child, rack.remove(c), 0);
        let deeper = prepend(c, below);
        lemma_prepend_contains(c, below, w);
        lemma_singleton_contains(c, w);
        lemma_concat_contains(seq![seq![c]], deeper, w);
        let listed = branch(t, rack, c).contains(w);
        assert(listed <==> ((child.terminal && w == seq![c]) || deeper.contains(w)));
        if w.len() > 0 && w[0] == c {
            let rest = w.drop_first();
            lemma_search_exact(child, rack.remove(c), 0, rest);
            if rest.len() == 0 {
                assert(w =~= seq![c]);
                assert(rest =~= Seq::empty());
                lemma_empty_spellable(rack.remove(c));
                assert(child.contains(rest) == child.terminal);
                assert(t.contains(w) == child.contains(rest));
                assert(is_solution(t, rack, w) <==> child.terminal);
                assert(!deeper.contains(w));
                assert(listed <==> child.terminal);
            } else {
                assert(w != seq![c]);
                if child.contains(rest) {
                    lemma_contains_letters(child, rest);
                    assert(is_letter(rest[0]));
                }
                assert(listed <==> is_solution(child, rack.remove(c), rest));
                assert(is_solution(t, rack, w) <==> is_solution(child, rack.remove(c), rest));
            }
        } else {
            assert(!listed);
        }
    } else {
        assert(branch(t, rack, c) =~= Seq::empty());
        assert(!branch(t, rack, c).contains(w));
    }
}

/// `search` holds exactly the solutions whose first letter has index `from`
/// or more.
proof fn lemma_search_exact(t: Trie, rack: Multiset<char>, from: int, w: Seq<char>)
    requires
        t.wf(),
        0 <= from <= ALPHABET_SIZE,
    ensures
        search(t, rack, from).contains(w) <==> (is_solution(t, rack, w) && letter_index(w[0])
            >= from),
    decreases t, ALPHABET_SIZE - from + 1,
{
    if from < ALPHABET_SIZE {
        let c = letter_at(from);
        lemma_branch_exact(t, rack, c, w);
        lemma_search_exact(t, rack, from + 1, w);
        lemma_concat_contains(branch(t, rack, c), search(t, rack, from + 1), w);
        if is_solution(t, rack, w) {
            lemma_contains_letters(t, w);
            assert(is_letter(w[0]));
        }
    } else {
        if is_solution(t, rack, w) {
            lemma_contains_letters(t, w);
            assert(is_letter(w[0]));
        }
    }
}

/// A letter in front of sorted words keeps them sorted.
proof fn lemma_prepend_sorted(c: char, words: Seq<Seq<char>>)
    requires
        strictly_sorted(words),
    ensures
        strictly_sorted(prepend(c, words)),
{
    let p = prepend(c, words);
    assert forall|i: int, j: int| 0 <= i < j < p.len() implies lex_lt(
        #[trigger] p[i],
        #[trigger] p[j],
    ) by {
        assert(p[i].drop_first() =~= words[i]);
        assert(p[j].drop_first() =~= words[j]);
        assert(lex_lt(words[i], words[j]));
    }
}

/// `branch` is strictly sorted.
proof fn lemma_branch_sorted(t: Trie, rack: Multiset<char>, c: char)
    requires
        t.wf(),
    ensures
        strictly_sorted(branch(t, rack, c)),
    decreases t, 0int,
{
    if t.children.contains_key(c) && rack.count(c) > 0 {
        let child = t.children[c];
        let below = search(child, rack.remove(c), 0);
        let deeper = prepend(c, below);
        lemma_search_sorted(child, rack.remove(c), 0);
        lemma_prepend_sorted(c, below);
        if child.terminal {
            let b = seq![seq![c]] + deeper;
            assert forall|i: int, j: int| 0 <= i < j < b.len() implies lex_lt(
                #[trigger] b[i],
                #[trigger] b[j],
            ) by {
                if i == 0 {
                    assert(b[j] == deeper[j - 1]);
                    assert(below.contains(below[j - 1]));
                    lemma_search_exact(child, rack.remove(c), 0, below[j - 1]);
                    assert(b[j].drop_first() =~= below[j - 1]);
                    assert(b[i].drop_first() =~= Seq::empty());
                    assert(lex_lt(Seq::empty(), below[j - 1]));
                    assert(lex_lt(b[i], b[j]));
                } else {
                    assert(b[i] == deeper[i - 1]);
                    assert(b[j] == deeper[j - 1]);
                    assert(lex_lt(deeper[i - 1], deeper[j - 1]));
                }
            }
        }
    }
}

/// `search` is strictly sorted.
proof fn lemma_search_sorted(t: Trie, rack: Multiset<char>, from: int)
    requires
        t.wf(),
        0 <= from <= ALPHABET_SIZE,
    ensures
        strictly_sorted(search(t, rack, from)),
    decreases t, ALPHABET_SIZE - from + 1,
{
    if from < ALPHABET_SIZE {
        let c = letter_at(from);
        let here = branch(t, rack, c);
        let later = search(t, rack, from + 1);
        lemma_branch_sorted(t, rack, c);
        lemma_search_sorted(t, rack, from + 1);
        let all = here + later;
        assert forall|i: int, j: int| 0 <= i < j < all.len() implies lex_lt(
            #[trigger] all[i],
            #[trigger] all[j],
        ) by {
            if j < here.len() {
                assert(all[i] == here[i] && all[j] == here[j]);
            } else if i >= here.len() {
                assert(all[i] == later[i - here.len()] && all[j] == later[j - here.len()]);
            } else {
                assert(all[i] == here[i] && all[j] == later[j - here.len()]);
                assert(here.contains(here[i]));
                assert(later.contains(later[j - here.len()]));
                lemma_branch_exact(t, rack, c, all[i]);
                lemma_search_exact(t, rack, from + 1, all[j]);
                lemma_contains_letters(t, all[j]);
                assert(is_letter(all[j][0]));
            }
        }
    }
}

/// A rack without letters gives no answers.
proof fn lemma_empty_search(t: Trie, rack: Multiset<char>, from: int)
    requires
        forall|c: char| rack.count(c) == 0,
    ensures
        search(t, rack, from) == Seq::<Seq<char>>::empty(),
    decreases ALPHABET_SIZE - from,
{
    if 0 <= from < ALPHABET_SIZE {
        lemma_empty_search(t, rack, from + 1);
        assert(branch(t, rack, letter_at(from)) =~= Seq::empty());
        assert(search(t, rack, from) =~= Seq::empty());
    }
}

} // verus!
