//! The alphabet: the 26 upper-case letters `A` to `Z`.

use vstd::prelude::*;
use crate::text::string_of;

verus! {

/// The number of letters.
pub const ALPHABET_SIZE: usize = 26;

/// Whether `c` is one of the letters `A` to `Z`.
pub open spec fn is_letter(c: char) -> bool {
    'A' <= c && c <= 'Z'
}

/// The place of a letter in the alphabet, from 0 for `A` to 25 for `Z`.
pub open spec fn letter_index(c: char) -> int {
    c as int - 'A' as int
}

/// The letter at place `i` of the alphabet.
pub open spec fn letter_at(i: int) -> char {
    (i + 'A' as int) as char
}

/// A word is a non-empty sequence of letters.
pub open spec fn is_word(w: Seq<char>) -> bool {
    &&& w.len() > 0
    &&& forall|i: int| 0 <= i < w.len() ==> is_letter(#[trigger] w[i])
}

/// The upper-case form of a lower-case letter `a` to `z`; any other
/// character as it is.
pub open spec fn to_upper(c: char) -> char {
    if 'a' <= c && c <= 'z' {
        (c as int - 32) as char
    } else {
        c
    }
}

/// The characters of `s`, each in its upper-case form.
pub open spec fn upper_case(s: Seq<char>) -> Seq<char> {
    s.map_values(|c: char| to_upper(c))
}

/// The letters that `input` holds, in upper case and in their order; what is
/// no letter is left out.
pub open spec fn rack_letters(input: Seq<char>) -> Seq<char> {
    upper_case(input).filter(|c: char| is_letter(c))
}

/// The place of `c` in the alphabet, or `None` where `c` is no letter.
pub fn index_of(c: char) -> (r: Option<usize>)
    ensures
        r == (if is_letter(c) {
            Some(letter_index(c) as usize)
        } else {
            None
        }),
{
    if 'A' <= c && c <= 'Z' {
        Some((c as u32 - 'A' as u32) as usize)
    } else {
        None
    }
}

/// The letter at place `i` of the alphabet.
pub fn letter_of(i: usize) -> (c: char)
    requires
        i < ALPHABET_SIZE,
    ensures
        c == letter_at(i as int),
{
    (i as u8 + 65u8) as char
}

/// The upper-case form of `c`.
pub fn upper(c: char) -> (u: char)
    ensures
        u == to_upper(c),
{
    if 'a' <= c && c <= 'z' {
        ((c as u32 - 32) as u8) as char
    } else {
        c
    }
}

/// The rack that `input` stands for: its letters, in upper case.
pub fn rack_of(input: &str) -> (rack: Vec<char>)
    ensures
        rack@ == rack_letters(input@),
{
    let mut rack: Vec<char> = Vec::new();
    for c in it: input.chars()
        invariant
            it.seq() == input@,
            rack@ == rack_letters(input@.take(it.index())),
    {
        let u = upper(c);
        proof {
            let seen = upper_case(input@.take(it.index() + 1));
            assert(seen.drop_last() =~= upper_case(input@.take(it.index())));
            assert(seen.last() == u);
            reveal_with_fuel(Seq::filter, 2);
        }
        if index_of(u).is_some() {
            rack.push(u);
        }
    }
    assert(input@.take(input@.len() as int) =~= input@);
    rack
}

/// The word that `line` holds, in upper case; `None` where `line` is empty or
/// holds a character that is no letter.
pub fn word_of(line: &str) -> (word: Option<String>)
    ensures
        word is Some <==> is_word(upper_case(line@)),
        word matches Some(w) ==> w@ == upper_case(line@),
{
    if !line.is_ascii() {
        proof {
            let i = choose|i: int|
                0 <= i < line@.len() && !('\0' <= (#[trigger] line@[i]) && line@[i] <= '\u{7f}');
            assert(!is_letter(upper_case(line@)[i]));
        }
        return None;
    }
    let bytes = line.as_bytes();
    let n: usize = bytes.len();
    proof {
        vstd::string::is_ascii_spec_bytes(line);
    }
    if n == 0 {
        return None;
    }
    let mut letters: Vec<char> = Vec::new();
    let mut i: usize = 0;
    while i < n
        invariant
            i <= n,
            n == line@.len(),
            bytes@.len() == n,
            forall|j: int| 0 <= j < n ==> bytes@[j] == line@[j] as u8,
            forall|j: int| 0 <= j < n ==> '\0' <= #[trigger] line@[j] <= '\u{7f}',
            letters@ == upper_case(line@).take(i as int),
            forall|j: int| 0 <= j < i ==> is_letter(#[trigger] upper_case(line@)[j]),
        decreases n - i,
    {
        let c = upper(bytes[i] as char);
        assert(c == upper_case(line@)[i as int]);
        if index_of(c).is_none() {
            return None;
        }
        letters.push(c);
        assert(letters@ =~= upper_case(line@).take(i + 1));
        i = i + 1;
    }
    assert(upper_case(line@).take(n as int) =~= upper_case(line@));
    Some(string_of(&letters))
}

/// Whether `word` is a word: not empty, and made of the letters `A` to `Z` only.
pub fn is_valid_word(word: &str) -> (r: bool)
    ensures
        r == is_word(word@),
{
    if !word.is_ascii() {
        return false;
    }
    let bytes = word.as_bytes();
    let n: usize = bytes.len();
    proof {
        vstd::string::is_ascii_spec_bytes(word);
    }
    if n == 0 {
        return false;
    }
    let mut i: usize = 0;
    while i < n
        invariant
            i <= n,
            n == word@.len(),
            bytes@.len() == n,
            forall|j: int| 0 <= j < n ==> bytes@[j] == word@[j] as u8,
            forall|j: int| 0 <= j < n ==> '\0' <= #[trigger] word@[j] <= '\u{7f}',
            forall|j: int| 0 <= j < i ==> is_letter(#[trigger] word@[j]),
        decreases n - i,
    {
        let b: u8 = bytes[i];
        if b < 65u8 || b > 90u8 {
            assert(!is_letter(word@[i as int]));
            return false;
        }
        i = i + 1;
    }
    true
}

} // verus!
