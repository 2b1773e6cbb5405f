//! The dictionary: a prefix tree whose nodes keep one slot per letter.

use vstd::prelude::*;
use crate::alphabet::{index_of, is_letter, is_word, letter_index, upper_case, word_of};
use crate::error::Error;
use crate::trie::{lemma_contains_letters, lemma_insert_contains, Trie};

verus! {

/// One node of the prefix tree.
///
/// The child under the letter of index `i` sits in slot `i`. The slot vector is
/// only as long as the highest letter used so far, so a leaf owns no slots at
/// all and every value of this type is a valid tree.
#[derive(Debug)]
pub struct Node {
    end_of_word: bool,
    children: Vec<Option<Box<Node>>>,
}

impl View for Node {
    type V = Trie;

    closed spec fn view(&self) -> Trie {
        self.model()
    }
}

impl Node {
    /// Whether the slot of `c` exists and is taken.
    spec fn has_child(self, c: char) -> bool {
        &&& is_letter(c)
        &&& letter_index(c) < self.children@.len()
        &&& self.children@[letter_index(c)] is Some
    }

    /// The tree below this node: the children are those of the taken slots,
    /// each under the letter of its slot.
    spec fn model(self) -> Trie
        decreases self,
    {
        Trie {
            terminal: self.end_of_word,
            children: Map::new(
                |c: char| self.has_child(c),
                |c: char|
                    if self.has_child(c) {
                        self.children@[letter_index(c)]->0.model()
                    } else {
                        Trie::empty()
                    },
            ),
        }
    }

    /// The view of a node only ever has children under letters.
    pub proof fn lemma_view_wf(self)
        ensures
            self@.wf(),
        decreases self,
    {
        assert forall|c: char| #[trigger] self@.children.contains_key(c) implies is_letter(c)
            && self@.children[c].wf() by {
            let child = self.children@[letter_index(c)]->0;
            child.lemma_view_wf();
        }
    }

    /// A node without children that ends no word.
    pub fn new() -> (node: Node)
        ensures
            node@ == Trie::empty(),
            forall|w: Seq<char>| !node@.contains(w),
    {
        let node = Node { end_of_word: false, children: Vec::new() };
        assert(node@.children =~= Map::empty());
        node
    }

    /// Whether the path from the root to this node spells a word.
    pub fn is_end_of_word(&self) -> (b: bool)
        ensures
            b == self@.terminal,
    {
        self.end_of_word
    }

    /// Marks or unmarks this node as the end of a word.
    pub fn set_end_of_word(&mut self, end_of_word: bool)
        ensures
            final(self)@ == (Trie { terminal: end_of_word, children: old(self)@.children }),
    {
        self.end_of_word = end_of_word;
        assert(self@.children =~= old(self)@.children);
    }

    /// The child under `letter`, if there is one.
    pub fn child(&self, letter: char) -> (child: Option<&Node>)
        ensures
            match child {
                Some(node) => self@.children.contains_key(letter) && node@ == self@.children[letter],
                None => !self@.children.contains_key(letter),
            },
    {
        match index_of(letter) {
            Some(i) => {
                if i < self.children.len() {
                    match &self.children[i] {
                        Some(node) => Some(&**node),
                        None => None,
                    }
                } else {
                    None
                }
            },
            None => None,
        }
    }

    /// Puts `child` under `letter`, in place of the child that was there, if any.
    pub fn set_child(&mut self, letter: char, child: Node)
        requires
            is_letter(letter),
        ensures
            final(self)@ == (Trie {
                terminal: old(self)@.terminal,
                children: old(self)@.children.insert(letter, child@),
            }),
    {
        let i: usize = self.slot(letter);
        self.children[i] = Some(Box::new(child));
        assert(self@.children =~= old(self)@.children.insert(letter, child@));
    }

    /// Makes sure that the slot of `letter` exists, and returns its index.
    fn slot(&mut self, letter: char) -> (i: usize)
        requires
            is_letter(letter),
        ensures
            final(self)@ == old(self)@,
            i == letter_index(letter),
            i < final(self).children@.len(),
            final(self).children@[i as int] == if old(self).has_child(letter) {
                old(self).children@[i as int]
            } else {
                None
            },
    {
        let i: usize = index_of(letter).unwrap();
        while self.children.len() <= i
            invariant
                self@ == old(self)@,
                old(self).children@.len() <= self.children@.len(),
                forall|k: int|
                    0 <= k < old(self).children@.len() ==> self.children@[k] == old(
                        self,
                    ).children@[k],
                forall|k: int|
                    old(self).children@.len() <= k < self.children@.len()
                        ==> self.children@[k] is None,
            decreases i + 1 - self.children.len(),
        {
            self.children.push(None);
            assert(self@.children =~= old(self)@.children);
        }
        i
    }

    /// Adds `word` below this node: walks down letter by letter, makes the
    /// nodes that are missing, and marks the last one as the end of a word.
    pub fn insert(&mut self, word: &str)
        requires
            is_word(word@),
        ensures
            final(self)@ == old(self)@.insert(word@),
            forall|w: Seq<char>|
                final(self)@.contains(w) <==> (old(self)@.contains(w) || w == word@),
    {
        proof {
            vstd::string::is_ascii_spec_bytes(word);
        }
        assert(vstd::string::is_ascii(word));
        let letters = word.as_bytes();
        self.insert_from(letters, 0, Ghost(word@));
        assert(word@.subrange(0, word@.len() as int) =~= word@);
        assert forall|w: Seq<char>|
            self@.contains(w) <==> (old(self)@.contains(w) || w == word@) by {
            lemma_insert_contains(old(self)@, word@, w);
        }
    }

    /// Adds the letters of `word` from place `pos` on below this node;
    /// `letters` holds the letters of `word` as bytes.
    fn insert_from(&mut self, letters: &[u8], pos: usize, Ghost(word): Ghost<Seq<char>>)
        requires
            pos <= letters@.len(),
            word.len() == letters@.len(),
            forall|i: int| 0 <= i < word.len() ==> is_letter(#[trigger] word[i]),
            forall|i: int| 0 <= i < word.len() ==> letters@[i] == word[i] as u8,
        ensures
            final(self)@ == old(self)@.insert(word.subrange(pos as int, word.len() as int)),
        decreases letters@.len() - pos,
    {
        let ghost rest = word.subrange(pos as int, word.len() as int);
        if pos == letters.len() {
            self.end_of_word = true;
            assert(self@.children =~= old(self)@.children);
        } else {
            let letter: char = letters[pos] as char;
            assert(letter == word[pos as int]);
            assert(rest[0] == letter);
            let i: usize = self.slot(letter);
            let mut child = match self.children[i].take() {
                Some(node) => node,
                None => Box::new(Node::new()),
            };
            assert(child@ == old(self)@.child(letter));
            child.insert_from(letters, pos + 1, Ghost(word));
            self.children[i] = Some(child);
            assert(rest.drop_first() =~= word.subrange(pos + 1, word.len() as int));
            assert(self@.children =~= old(self)@.insert(rest).children);
        }
    }

    /// Whether `word` leads from this node to a node that ends a word.
    pub fn contains(&self, word: &str) -> (b: bool)
        ensures
            b == self@.contains(word@),
    {
        if !word.is_ascii() {
            proof {
                if self@.contains(word@) {
                    self.lemma_view_wf();
                    lemma_contains_letters(self@, word@);
                }
            }
            return false;
        }
        proof {
            vstd::string::is_ascii_spec_bytes(word);
        }
        let letters = word.as_bytes();
        let mut node: &Node = self;
        let mut pos: usize = 0;
        assert(word@.skip(0) =~= word@);
        while pos < letters.len()
            invariant
                pos <= letters@.len(),
                letters@.len() == word@.len(),
                forall|i: int| 0 <= i < word@.len() ==> letters@[i] == word@[i] as u8,
                forall|i: int| 0 <= i < word@.len() ==> '\0' <= #[trigger] word@[i] <= '\u{7f}',
                self@.contains(word@) == node@.contains(word@.skip(pos as int)),
            decreases letters@.len() - pos,
        {
            let ghost rest = word@.skip(pos as int);
            let letter: char = letters[pos] as char;
            assert(letter == word@[pos as int]);
            assert(rest[0] == letter);
            assert(rest.drop_first() =~= word@.skip(pos + 1));
            match node.child(letter) {
                Some(next) => {
                    node = next;
                },
                None => {
                    return false;
                },
            }
            pos = pos + 1;
        }
        assert(word@.skip(pos as int).len() == 0);
        node.end_of_word
    }
}

/// A dictionary of words over the letters `A` to `Z`.
///
/// Words are added while the dictionary is built. The queries take it by
/// shared reference and keep their working state to themselves, so a
/// dictionary that is no longer changed can be queried from several threads at
/// once.
#[derive(Debug)]
pub struct Dictionnary {
    root: Node,
}

impl View for Dictionnary {
    type V = Trie;

    closed spec fn view(&self) -> Trie {
        self.root@
    }
}

impl Dictionnary {
    /// The view of a dictionary only ever has children under letters.
    pub proof fn lemma_view_wf(self)
        ensures
            self@.wf(),
    {
        self.root.lemma_view_wf();
    }

    /// The dictionary without words.
    pub fn new() -> (dict: Dictionnary)
        ensures
            dict@ == Trie::empty(),
            forall|w: Seq<char>| !dict@.contains(w),
    {
        Dictionnary { root: Node::new() }
    }

    /// The dictionary that holds the tree below `root`.
    pub fn from_root(root: Node) -> (dict: Dictionnary)
        ensures
            dict@ == root@,
    {
        Dictionnary { root }
    }

    /// The root of the tree.
    pub fn root(&self) -> (root: &Node)
        ensures
            root@ == self@,
    {
        &self.root
    }

    /// Adds `word` to the dictionary. Adding a word twice changes nothing.
    pub fn add_word(&mut self, word: &str)
        requires
            is_word(word@),
        ensures
            final(self)@ == old(self)@.insert(word@),
            forall|w: Seq<char>|
                final(self)@.contains(w) <==> (old(self)@.contains(w) || w == word@),
    {
        self.root.insert(word);
    }

    /// Adds the word that a line of a word list holds, in upper case. A line
    /// that holds no word is turned down and changes nothing.
    pub fn add_line(&mut self, line: &str) -> (r: Result<(), Error>)
        ensures
            match r {
                Ok(_) => {
                    &&& is_word(upper_case(line@))
                    &&& final(self)@ == old(self)@.insert(upper_case(line@))
                    &&& forall|w: Seq<char>|
                        final(self)@.contains(w) <==> (old(self)@.contains(w) || w
                            == upper_case(line@))
                },
                Err(e) => {
                    &&& e == Error::InvalidInput
                    &&& !is_word(upper_case(line@))
                    &&& final(self)@ == old(self)@
                },
            },
    {
        match word_of(line) {
            Some(word) => {
                self.root.insert(word.as_str());
                Ok(())
            },
            None => Err(Error::InvalidInput),
        }
    }

    /// Whether `word` is in the dictionary.
    pub fn contains(&self, word: &str) -> (b: bool)
        ensures
            b == self@.contains(word@),
    {
        self.root.contains(word)
    }
}

} // verus!
