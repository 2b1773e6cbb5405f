//! Building strings from letters.

use vstd::prelude::*;

verus! {

/// `String::push` of the standard library appends the given character to the
/// end of the string and changes nothing else.
pub assume_specification[ String::push ](s: &mut String, ch: char)
    ensures
        final(s)@ == old(s)@.push(ch),
;

/// The string with the characters of `letters`, in the same order.
pub fn string_of(letters: &Vec<char>) -> (s: String)
    ensures
        s@ == letters@,
{
    let mut s = String::new();
    let mut i: usize = 0;
    while i < letters.len()
        invariant
            i <= letters@.len(),
            s@ == letters@.take(i as int),
        decreases letters@.len() - i,
    {
        s.push(letters[i]);
        assert(letters@.take(i + 1) =~= letters@.take(i as int).push(letters@[i as int]));
        i = i + 1;
    }
    assert(letters@.take(letters@.len() as int) =~= letters@);
    s
}

} // verus!
