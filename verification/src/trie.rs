//! The prefix tree as a mathematical value, and what insertion does to it.

use vstd::prelude::*;
use crate::alphabet::is_letter;

verus! {

/// A prefix tree: every node says whether the path that leads to it spells a
/// word, and maps letters to the subtrees below it.
pub struct Trie {
    pub terminal: bool,
    pub children: Map<char, Trie>,
}

impl Trie {
    /// The tree that holds no word.
    pub open spec fn empty() -> Trie {
        Trie { terminal: false, children: Map::empty() }
    }

    /// The subtree under `c`; the empty tree where there is none.
    pub open spec fn child(self, c: char) -> Trie {
        if self.children.contains_key(c) {
            self.children[c]
        } else {
            Trie::empty()
        }
    }

    /// Whether the path spelled by `w` exists and ends on a terminal node.
    pub open spec fn contains(self, w: Seq<char>) -> bool
        decreases w.len(),
    {
        if w.len() == 0 {
            self.terminal
        } else {
            self.children.contains_key(w[0]) && self.children[w[0]].contains(w.drop_first())
        }
    }

    /// The set of all paths that end on a terminal node.
    pub open spec fn words(self) -> Set<Seq<char>> {
        Set::new(|w: Seq<char>| self.contains(w))
    }

    /// The tree after `w` was added: the nodes on the path of `w` exist, the
    /// last of them is terminal, and every other node is as it was.
    pub open spec fn insert(self, w: Seq<char>) -> Trie
        decreases w.len(),
    {
        if w.len() == 0 {
            Trie { terminal: true, children: self.children }
        } else {
            Trie {
                terminal: self.terminal,
                children: self.children.insert(w[0], self.child(w[0]).insert(w.drop_first())),
            }
        }
    }

    /// The tree after the words of `list` were added one after the other.
    pub open spec fn insert_all(self, list: Seq<Seq<char>>) -> Trie
        decreases list.len(),
    {
        if list.len() == 0 {
            self
        } else {
            self.insert_all(list.drop_last()).insert(list.last())
        }
    }

    /// Every subtree holds at least one word: no branch leads nowhere.
    pub open spec fn trimmed(self) -> bool
        decreases self,
    {
        forall|c: char| #[trigger]
            self.children.contains_key(c) ==> {
                &&& exists|w: Seq<char>| self.children[c].contains(w)
                &&& self.children[c].trimmed()
            }
    }

    /// Every edge of the tree is labelled with a letter of the alphabet.
    pub open spec fn wf(self) -> bool
        decreases self,
    {
        forall|c: char| #[trigger]
            self.children.contains_key(c) ==> is_letter(c) && self.children[c].wf()
    }
}

/// Two non-empty sequences with the same first element and the same rest are equal.
proof fn lemma_same_head_and_tail(v: Seq<char>, w: Seq<char>)
    requires
        v.len() > 0,
        w.len() > 0,
        v[0] == w[0],
        v.drop_first() == w.drop_first(),
    ensures
        v == w,
{
    assert(v.len() == v.drop_first().len() + 1);
    assert(w.len() == w.drop_first().len() + 1);
    assert forall|i: int| 0 <= i < v.len() implies v[i] == w[i] by {
        if i > 0 {
            assert(v[i] == v.drop_first()[i - 1]);
            assert(w[i] == w.drop_first()[i - 1]);
        }
    }
    assert(v =~= w);
}

/// The empty tree contains nothing.
pub proof fn lemma_empty_contains(w: Seq<char>)
    ensures
        !Trie::empty().contains(w),
{
}

/// After `w` was added, the tree contains `w` and what it contained before,
/// and nothing else.
pub proof fn lemma_insert_contains(t: Trie, w: Seq<char>, v: Seq<char>)
    ensures
        t.insert(w).contains(v) <==> (t.contains(v) || v == w),
    decreases w.len(),
{
    if w.len() == 0 {
        if v.len() == 0 {
            assert(v =~= w);
        }
    } else if v.len() > 0 && v[0] == w[0] {
        lemma_insert_contains(t.child(w[0]), w.drop_first(), v.drop_first());
        lemma_empty_contains(v.drop_first());
        if v.drop_first() == w.drop_first() {
            lemma_same_head_and_tail(v, w);
        }
    }
}

/// Adding a word adds it to the set of words, and changes that set in no other way.
pub proof fn lemma_insert_words(t: Trie, w: Seq<char>)
    ensures
        t.insert(w).words() == t.words().insert(w),
{
    assert forall|v: Seq<char>| t.insert(w).words().contains(v) <==> t.words().insert(w).contains(
        v,
    ) by {
        lemma_insert_contains(t, w, v);
    }
    assert(t.insert(w).words() =~= t.words().insert(w));
}

/// Adding a word that the tree contains already changes no node.
pub proof fn lemma_insert_existing(t: Trie, w: Seq<char>)
    requires
        t.contains(w),
    ensures
        t.insert(w) == t,
    decreases w.len(),
{
    if w.len() > 0 {
        lemma_insert_existing(t.children[w[0]], w.drop_first());
        assert(t.insert(w).children =~= t.children);
    }
}

/// Adding a word made of letters keeps every edge labelled with a letter.
pub proof fn lemma_insert_wf(t: Trie, w: Seq<char>)
    requires
        t.wf(),
        forall|i: int| 0 <= i < w.len() ==> is_letter(#[trigger] w[i]),
    ensures
        t.insert(w).wf(),
    decreases w.len(),
{
    if w.len() > 0 {
        let rest = w.drop_first();
        assert forall|i: int| 0 <= i < rest.len() implies is_letter(#[trigger] rest[i]) by {
            assert(rest[i] == w[i + 1]);
        }
        lemma_insert_wf(t.child(w[0]), rest);
        assert(is_letter(w[0]));
    }
}

/// A word that a tree over the alphabet contains is made of letters.
pub proof fn lemma_contains_letters(t: Trie, w: Seq<char>)
    requires
        t.wf(),
        t.contains(w),
    ensures
        forall|i: int| 0 <= i < w.len() ==> is_letter(#[trigger] w[i]),
    decreases w.len(),
{
    if w.len() > 0 {
        lemma_contains_letters(t.children[w[0]], w.drop_first());
        assert forall|i: int| 0 <= i < w.len() implies is_letter(#[trigger] w[i]) by {
            if i > 0 {
                assert(w[i] == w.drop_first()[i - 1]);
            }
        }
    }
}

/// After the words of `list` were added to a tree, it contains what it
/// contained before and the words of `list`, and nothing else.
pub proof fn lemma_insert_all_contains(t: Trie, list: Seq<Seq<char>>, w: Seq<char>)
    ensures
        t.insert_all(list).contains(w) <==> (t.contains(w) || list.contains(w)),
    decreases list.len(),
{
    if list.len() > 0 {
        let front = list.drop_last();
        lemma_insert_all_contains(t, front, w);
        lemma_insert_contains(t.insert_all(front), list.last(), w);
        if list.contains(w) {
            let i = choose|i: int| 0 <= i < list.len() && list[i] == w;
            if i < list.len() - 1 {
                assert(front[i] == w);
            }
        }
        if front.contains(w) {
            let i = choose|i: int| 0 <= i < front.len() && front[i] == w;
            assert(list[i] == w);
        }
        if w == list.last() {
            assert(list[list.len() - 1] == w);
        }
    }
}

/// Every word of a list is in the tree that was built from the list.
pub proof fn lemma_built_tree_contains_its_words(list: Seq<Seq<char>>, w: Seq<char>)
    requires
        list.contains(w),
    ensures
        Trie::empty().insert_all(list).contains(w),
{
    lemma_insert_all_contains(Trie::empty(), list, w);
}

/// The tree that was built from a list contains a word if and only if the
/// word is in the list.
pub proof fn lemma_built_tree_contains_only_its_words(list: Seq<Seq<char>>, w: Seq<char>)
    ensures
        Trie::empty().insert_all(list).contains(w) <==> list.contains(w),
{
    lemma_insert_all_contains(Trie::empty(), list, w);
    lemma_empty_contains(w);
}

/// Adding a word leaves no branch that leads nowhere.
pub proof fn lemma_insert_trimmed(t: Trie, w: Seq<char>)
    requires
        t.trimmed(),
    ensures
        t.insert(w).trimmed(),
    decreases w.len(),
{
    if w.len() > 0 {
        let rest = w.drop_first();
        let grown = t.child(w[0]).insert(rest);
        lemma_insert_trimmed(t.child(w[0]), rest);
        lemma_insert_contains(t.child(w[0]), rest, rest);
        assert(grown.contains(rest));
        assert forall|c: char| #[trigger] t.insert(w).children.contains_key(c) implies {
            &&& exists|v: Seq<char>| t.insert(w).children[c].contains(v)
            &&& t.insert(w).children[c].trimmed()
        } by {
            if c != w[0] {
                assert(t.children.contains_key(c));
            }
        }
    }
}

/// A tree that was built from a list has no branch that leads nowhere.
pub proof fn lemma_built_tree_trimmed(list: Seq<Seq<char>>)
    ensures
        Trie::empty().insert_all(list).trimmed(),
    decreases list.len(),
{
    if list.len() > 0 {
        lemma_built_tree_trimmed(list.drop_last());
        lemma_insert_trimmed(Trie::empty().insert_all(list.drop_last()), list.last());
    }
}

/// Two trees without dead branches that contain the same words are the same tree.
pub proof fn lemma_same_words_same_tree(a: Trie, b: Trie)
    requires
        a.trimmed(),
        b.trimmed(),
        forall|w: Seq<char>| a.contains(w) == b.contains(w),
    ensures
        a == b,
    decreases a,
{
    assert(a.contains(Seq::empty()) == b.contains(Seq::empty()));
    assert forall|c: char| a.children.contains_key(c) == b.children.contains_key(c) by {
        if a.children.contains_key(c) {
            let v = choose|v: Seq<char>| a.children[c].contains(v);
            lemma_contains_below(a, c, v);
            lemma_contains_below(b, c, v);
        }
        if b.children.contains_key(c) {
            let v = choose|v: Seq<char>| b.children[c].contains(v);
            lemma_contains_below(a, c, v);
            lemma_contains_below(b, c, v);
        }
    }
    assert forall|c: char| a.children.contains_key(c) implies a.children[c] == b.children[c] by {
        assert forall|v: Seq<char>| a.children[c].contains(v) == b.children[c].contains(v) by {
            lemma_contains_below(a, c, v);
            lemma_contains_below(b, c, v);
        }
        lemma_same_words_same_tree(a.children[c], b.children[c]);
    }
    assert(a.children =~= b.children);
}

/// A tree contains `c` followed by `v` exactly if its subtree under `c` contains `v`.
proof fn lemma_contains_below(t: Trie, c: char, v: Seq<char>)
    ensures
        t.contains(seq![c] + v) == (t.children.contains_key(c) && t.children[c].contains(v)),
{
    assert((seq![c] + v).drop_first() =~= v);
}

} // verus!
