//! The binary file format of a dictionary.
//!
//! A node is written as one header byte (bit 0 set where the node ends a
//! word, the other bits zero), one byte with the number of its children, and
//! then its children: for each child its letter as one ASCII byte, followed by
//! the child written in the same way. A writer puts the children in the order
//! of the alphabet; a reader takes them in any order.

use vstd::prelude::*;
use crate::alphabet::{is_letter, letter_at, letter_index, letter_of, ALPHABET_SIZE};
use crate::dictionnary::{Dictionnary, Node};
use crate::error::Error;
use crate::trie::{
    lemma_built_tree_contains_only_its_words, lemma_built_tree_trimmed, lemma_same_words_same_tree,
    Trie,
};

verus! {

/// How many of the letters from place `from` on the tree has a child under.
pub open spec fn child_count(t: Trie, from: int) -> nat
    decreases ALPHABET_SIZE - from,
{
    if 0 <= from < ALPHABET_SIZE {
        if t.children.contains_key(letter_at(from)) {
            1 + child_count(t, from + 1)
        } else {
            child_count(t, from + 1)
        }
    } else {
        0
    }
}

/// The bytes of a tree.
pub open spec fn encode(t: Trie) -> Seq<u8>
    decreases t, ALPHABET_SIZE + 1,
{
    seq![if t.terminal { 1u8 } else { 0u8 }, child_count(t, 0) as u8] + encode_children(t, 0)
}

/// The bytes of the children under the letters from place `from` on.
pub open spec fn encode_children(t: Trie, from: int) -> Seq<u8>
    decreases t, ALPHABET_SIZE - from,
{
    if 0 <= from < ALPHABET_SIZE {
        let c = letter_at(from);
        if t.children.contains_key(c) {
            seq![c as u8] + encode(t.children[c]) + encode_children(t, from + 1)
        } else {
            encode_children(t, from + 1)
        }
    } else {
        Seq::empty()
    }
}

/// The tree at the front of `bytes` and the bytes behind it, or `None` where
/// no tree can be read.
pub open spec fn decode(bytes: Seq<u8>) -> Option<(Trie, Seq<u8>)>
    decreases bytes.len(),
{
    if bytes.len() < 2 || bytes[0] > 1 || bytes[1] > ALPHABET_SIZE {
        None
    } else {
        match decode_children(bytes.skip(2), bytes[1] as nat, Map::empty()) {
            Some((children, rest)) => Some((Trie { terminal: bytes[0] == 1, children }, rest)),
            None => None,
        }
    }
}

/// Reads `count` children from the front of `bytes` and adds them to
/// `children`; a child under a letter that was read before takes its place.
///
/// A child takes at least two bytes (see `lemma_decode_consumes`), so the
/// bytes behind it are always fewer; the test for it keeps the definition
/// well-founded.
pub open spec fn decode_children(bytes: Seq<u8>, count: nat, children: Map<char, Trie>) -> Option<
    (Map<char, Trie>, Seq<u8>),
>
    decreases bytes.len(),
{
    if count == 0 {
        Some((children, bytes))
    } else if bytes.len() == 0 || !is_letter(bytes[0] as char) {
        None
    } else {
        match decode(bytes.skip(1)) {
            Some((child, rest)) => {
                if rest.len() < bytes.len() {
                    decode_children(
                        rest,
                        (count - 1) as nat,
                        children.insert(bytes[0] as char, child),
                    )
                } else {
                    None
                }
            },
            None => None,
        }
    }
}

/// The tree that `bytes` start with; what follows the tree is not looked at.
pub open spec fn parse(bytes: Seq<u8>) -> Option<Trie> {
    match decode(bytes) {
        Some((t, _)) => Some(t),
        None => None,
    }
}

/// The children of `t` under the letters before place `from`.
spec fn children_before(t: Trie, from: int) -> Map<char, Trie> {
    Map::new(
        |c: char| t.children.contains_key(c) && letter_index(c) < from,
        |c: char| t.children[c],
    )
}

/// A tree has no more children than there are letters left.
proof fn lemma_child_count_bound(t: Trie, from: int)
    requires
        0 <= from <= ALPHABET_SIZE,
    ensures
        child_count(t, from) <= ALPHABET_SIZE - from,
    decreases ALPHABET_SIZE - from,
{
    if from < ALPHABET_SIZE {
        lemma_child_count_bound(t, from + 1);
    }
}

/// Reading what was written gives the tree back, and leaves what stood behind it.
pub proof fn lemma_decode_encode(t: Trie, rest: Seq<u8>)
    requires
        t.wf(),
    ensures
        decode(encode(t) + rest) == Some((t, rest)),
    decreases t, ALPHABET_SIZE + 1,
{
    let bytes = encode(t) + rest;
    lemma_child_count_bound(t, 0);
    assert(bytes[0] == if t.terminal { 1u8 } else { 0u8 });
    assert(bytes[1] == child_count(t, 0) as u8);
    assert(bytes.skip(2) =~= encode_children(t, 0) + rest);
    assert(children_before(t, 0) =~= Map::empty());
    lemma_decode_encode_children(t, 0, rest);
}

/// Reading the children from place `from` on, after those before it were
/// read, gives all the children of the tree.
proof fn lemma_decode_encode_children(t: Trie, from: int, rest: Seq<u8>)
    requires
        t.wf(),
        0 <= from <= ALPHABET_SIZE,
    ensures
        decode_children(
            encode_children(t, from) + rest,
            child_count(t, from),
            children_before(t, from),
        ) == Some((t.children, rest)),
    decreases t, ALPHABET_SIZE - from,
{
    let bytes = encode_children(t, from) + rest;
    if from < ALPHABET_SIZE {
        let c = letter_at(from);
        if t.children.contains_key(c) {
            let child = t.children[c];
            let after = encode_children(t, from + 1) + rest;
            assert(bytes[0] == c as u8);
            assert(bytes[0] as char == c);
            assert(bytes.skip(1) =~= encode(child) + after);
            lemma_decode_encode(child, after);
            assert(children_before(t, from).insert(c, child) =~= children_before(t, from + 1));
            lemma_decode_encode_children(t, from + 1, rest);
        } else {
            assert(children_before(t, from) =~= children_before(t, from + 1));
            lemma_decode_encode_children(t, from + 1, rest);
        }
    } else {
        assert(bytes =~= rest);
        assert(children_before(t, from) =~= t.children);
    }
}

/// A tree that is written and read again is the same tree: it contains the
/// same words, and writing it once more gives the same bytes.
pub proof fn lemma_round_trip(t: Trie)
    requires
        t.wf(),
    ensures
        parse(encode(t)) == Some(t),
        parse(encode(t))->0.words() == t.words(),
        encode(parse(encode(t))->0) == encode(t),
{
    lemma_decode_encode(t, Seq::empty());
    assert(encode(t) + Seq::<u8>::empty() =~= encode(t));
}

/// Two dictionaries that were built from lists with the same words have the
/// same bytes, in whatever order and however often the words were added.
pub proof fn lemma_same_words_same_bytes(list1: Seq<Seq<char>>, list2: Seq<Seq<char>>)
    requires
        forall|w: Seq<char>| list1.contains(w) <==> list2.contains(w),
    ensures
        encode(Trie::empty().insert_all(list1)) == encode(Trie::empty().insert_all(list2)),
{
    let t1 = Trie::empty().insert_all(list1);
    let t2 = Trie::empty().insert_all(list2);
    lemma_built_tree_trimmed(list1);
    lemma_built_tree_trimmed(list2);
    assert forall|w: Seq<char>| t1.contains(w) == t2.contains(w) by {
        lemma_built_tree_contains_only_its_words(list1, w);
        lemma_built_tree_contains_only_its_words(list2, w);
    }
    lemma_same_words_same_tree(t1, t2);
}

/// A tree that was read has letters on all its edges, and took at least two
/// bytes from the front of the input.
pub proof fn lemma_decode_consumes(bytes: Seq<u8>)
    ensures
        decode(bytes) matches Some((t, rest)) ==> {
            &&& t.wf()
            &&& rest.len() + 2 <= bytes.len()
            &&& rest == bytes.skip(bytes.len() - rest.len())
        },
    decreases bytes.len(), 1int,
{
    if decode(bytes) is Some {
        lemma_decode_children_consumes(bytes.skip(2), bytes[1] as nat, Map::empty());
        let (children, rest) = decode_children(bytes.skip(2), bytes[1] as nat, Map::empty())->0;
        assert(rest =~= bytes.skip(bytes.len() - rest.len()));
    }
}

/// Children that were read stand under letters, and came from the front of
/// the input.
proof fn lemma_decode_children_consumes(bytes: Seq<u8>, count: nat, children: Map<char, Trie>)
    requires
        forall|c: char| #[trigger]
            children.contains_key(c) ==> is_letter(c) && children[c].wf(),
    ensures
        decode_children(bytes, count, children) matches Some((all, rest)) ==> {
            &&& forall|c: char| #[trigger] all.contains_key(c) ==> is_letter(c) && all[c].wf()
            &&& rest.len() <= bytes.len()
            &&& rest == bytes.skip(bytes.len() - rest.len())
        },
    decreases bytes.len(), 0int,
{
    if count == 0 {
        assert(bytes.skip(0) =~= bytes);
    } else if decode_children(bytes, count, children) is Some {
        lemma_decode_consumes(bytes.skip(1));
        let (child, after) = decode(bytes.skip(1))->0;
        let grown = children.insert(bytes[0] as char, child);
        lemma_decode_children_consumes(after, (count - 1) as nat, grown);
        let (all, rest) = decode_children(after, (count - 1) as nat, grown)->0;
        assert(rest =~= bytes.skip(bytes.len() - rest.len()));
    }
}

impl Node {
    /// Appends the bytes of the tree below this node to `sink`.
    pub fn encode_into(&self, sink: &mut Vec<u8>)
        ensures
            final(sink)@ == old(sink)@ + encode(self@),
        decreases self@,
    {
        let mut count: u8 = 0;
        let mut i: usize = 0;
        while i < ALPHABET_SIZE
            invariant
                i <= ALPHABET_SIZE,
                count <= i,
                count + child_count(self@, i as int) == child_count(self@, 0),
            decreases ALPHABET_SIZE - i,
        {
            if self.child(letter_of(i)).is_some() {
                count = count + 1;
            }
            i = i + 1;
        }
        sink.push(if self.is_end_of_word() { 1u8 } else { 0u8 });
        sink.push(count);
        let ghost goal = old(sink)@ + encode(self@);
        assert(sink@ + encode_children(self@, 0) =~= goal);
        i = 0;
        while i < ALPHABET_SIZE
            invariant
                i <= ALPHABET_SIZE,
                sink@ + encode_children(self@, i as int) == goal,
            decreases ALPHABET_SIZE - i,
        {
            let ghost before = sink@;
            match self.child(letter_of(i)) {
                Some(child) => {
                    sink.push(i as u8 + 65u8);
                    child.encode_into(sink);
                    assert(sink@ + encode_children(self@, i + 1) =~= before + encode_children(
                        self@,
                        i as int,
                    ));
                },
                None => {},
            }
            i = i + 1;
        }
        assert(sink@ + encode_children(self@, ALPHABET_SIZE as int) =~= sink@);
    }

    /// Reads the tree that starts at place `start` of `source`, and returns
    /// it with the place behind its last byte.
    pub fn decode_from(source: &[u8], start: usize) -> (r: Result<(Node, usize), Error>)
        requires
            start <= source@.len(),
        ensures
            match r {
                Ok((node, end)) => {
                    &&& start <= end <= source@.len()
                    &&& decode(source@.skip(start as int)) == Some(
                        (node@, source@.skip(end as int)),
                    )
                },
                Err(e) => e == Error::MalformedInput && decode(source@.skip(start as int))
                    is None,
            },
        decreases source@.len() - start,
    {
        let ghost bytes = source@.skip(start as int);
        if source.len() - start < 2 {
            return Err(Error::MalformedInput);
        }
        let header: u8 = source[start];
        let count: u8 = source[start + 1];
        if header > 1 || count > 26 {
            return Err(Error::MalformedInput);
        }
        let mut node = Node::new();
        node.set_end_of_word(header == 1);
        let mut pos: usize = start + 2;
        let mut remaining: u8 = count;
        assert(bytes.skip(2) =~= source@.skip(pos as int));
        let ghost goal = decode_children(bytes.skip(2), count as nat, Map::empty());
        while remaining > 0
            invariant
                start + 2 <= pos <= source@.len(),
                node@.terminal == (header == 1),
                decode_children(source@.skip(pos as int), remaining as nat, node@.children)
                    == goal,
                decode(source@.skip(start as int)) == match goal {
                    Some((children, rest)) => Some(
                        (Trie { terminal: header == 1, children }, rest),
                    ),
                    None => None,
                },
            decreases remaining,
        {
            let ghost here = source@.skip(pos as int);
            if pos >= source.len() {
                return Err(Error::MalformedInput);
            }
            let letter: u8 = source[pos];
            assert(here[0] == letter);
            if letter < 65 || letter > 90 {
                return Err(Error::MalformedInput);
            }
            assert(here.skip(1) =~= source@.skip(pos + 1));
            match Node::decode_from(source, pos + 1) {
                Ok((child, end)) => {
                    node.set_child(letter as char, child);
                    pos = end;
                    remaining = remaining - 1;
                },
                Err(e) => {
                    return Err(e);
                },
            }
        }
        Ok((node, pos))
    }
}

impl Dictionnary {
    /// The binary file of a dictionary holds that dictionary.
    pub proof fn lemma_saved_file_loads(self)
        ensures
            parse(encode(self@)) == Some(self@),
    {
        self.lemma_view_wf();
        lemma_round_trip(self@);
    }

    /// Appends the binary file of the dictionary to `sink`.
    pub fn save_to_bin_file(&self, sink: &mut Vec<u8>)
        ensures
            final(sink)@ == old(sink)@ + encode(self@),
    {
        self.root().encode_into(sink);
    }

    /// Replaces the dictionary by the one that the binary file `source`
    /// holds. A file that cannot be read leaves the dictionary as it was.
    pub fn load_bin_file(&mut self, source: &[u8]) -> (r: Result<(), Error>)
        ensures
            match r {
                Ok(_) => parse(source@) == Some(final(self)@),
                Err(e) => {
                    &&& e == Error::MalformedInput
                    &&& parse(source@) is None
                    &&& final(self)@ == old(self)@
                },
            },
    {
        assert(source@.skip(0) =~= source@);
        match Node::decode_from(source, 0) {
            Ok((root, _)) => {
                *self = Dictionnary::from_root(root);
                Ok(())
            },
            Err(e) => Err(e),
        }
    }
}

} // verus!
