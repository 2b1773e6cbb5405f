//! Which kind of file a path names.

use vstd::prelude::*;

verus! {

/// The kinds of file that hold a dictionary.
#[derive(Debug, Clone, Copy, PartialEq, Eq, Structural)]
pub enum FileKind {
    /// The text format.
    Json,
    /// The binary format.
    Bin,
    /// A list of words, one on each line.
    WordList,
}

/// The suffix of the files in the text format.
pub open spec fn json_suffix() -> Seq<char> {
    seq!['.', 'j', 's', 'o', 'n']
}

/// The suffix of the files in the binary format.
pub open spec fn bin_suffix() -> Seq<char> {
    seq!['.', 'b', 'i', 'n']
}

/// The kind of the file to read at `path`: by its suffix the text or the
/// binary format, and a word list otherwise.
pub open spec fn input_kind_of(path: Seq<char>) -> FileKind {
    if json_suffix().is_suffix_of(path) {
        FileKind::Json
    } else if bin_suffix().is_suffix_of(path) {
        FileKind::Bin
    } else {
        FileKind::WordList
    }
}

/// The kind of the file to write at `path`: the text format where the suffix
/// or the caller asks for it, and the binary format otherwise.
pub open spec fn output_kind_of(path: Seq<char>, json_format: bool) -> FileKind {
    if json_format || json_suffix().is_suffix_of(path) {
        FileKind::Json
    } else {
        FileKind::Bin
    }
}

/// Whether `text` ends with `suffix`.
pub fn ends_with(text: &str, suffix: &str) -> (b: bool)
    ensures
        b == suffix@.is_suffix_of(text@),
{
    let n: usize = text.unicode_len();
    let m: usize = suffix.unicode_len();
    if m > n {
        return false;
    }
    let mut k: usize = 0;
    while k < m
        invariant
            k <= m <= n,
            n == text@.len(),
            m == suffix@.len(),
            forall|j: int| 0 <= j < k ==> suffix@[j] == text@[n - m + j],
        decreases m - k,
    {
        if suffix.get_char(k) != text.get_char(n - m + k) {
            assert(text@.subrange(n - m, n as int)[k as int] != suffix@[k as int]);
            return false;
        }
        k = k + 1;
    }
    assert(suffix@ =~= text@.subrange(n - m, n as int));
    true
}

/// The kind of the file to read at `path`.
pub fn input_kind(path: &str) -> (kind: FileKind)
    ensures
        kind == input_kind_of(path@),
{
    proof {
        reveal_strlit(".json");
        reveal_strlit(".bin");
        assert(".json"@ =~= json_suffix());
        assert(".bin"@ =~= bin_suffix());
    }
    if ends_with(path, ".json") {
        FileKind::Json
    } else if ends_with(path, ".bin") {
        FileKind::Bin
    } else {
        FileKind::WordList
    }
}

/// The kind of the file to write at `path`.
pub fn output_kind(path: &str, json_format: bool) -> (kind: FileKind)
    ensures
        kind == output_kind_of(path@, json_format),
{
    proof {
        reveal_strlit(".json");
        assert(".json"@ =~= json_suffix());
    }
    if json_format || ends_with(path, ".json") {
        FileKind::Json
    } else {
        FileKind::Bin
    }
}

} // verus!
