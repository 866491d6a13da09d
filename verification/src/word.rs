//! Words: five bytes, lowercase letters when well formed.

use vstd::prelude::*;
use vstd::string::StringSliceAdditionalSpecFns;

verus! {

/// Number of letters in every word.
pub const WORD_LEN: usize = 5;

/// A guess or an answer.
pub type Word = [u8; 5];

/// A byte is a lowercase ASCII letter.
pub open spec fn is_letter(b: u8) -> bool {
    97 <= b <= 122
}

/// Five lowercase letters.
pub open spec fn is_word(w: Seq<u8>) -> bool {
    &&& w.len() == 5
    &&& forall|i: int| 0 <= i < 5 ==> is_letter(#[trigger] w[i])
}

/// The word spelled by a string of five lowercase letters.
///
/// Anything else is no word and must not be passed: `word_from_bytes` is
/// the way to find out whether bytes spell a word.
pub fn to_word(w: &str) -> (word: Word)
    requires
        is_word(w.spec_bytes()),
    ensures
        word@ == w.spec_bytes(),
        is_word(word@),
{
    let b = w.as_bytes();
    let word: Word = [b[0], b[1], b[2], b[3], b[4]];
    assert(word@ =~= w.spec_bytes());
    word
}

/// Whether two words hold the same letters.
pub fn same_word(a: &Word, b: &Word) -> (same: bool)
    ensures
        same == (a@ == b@),
{
    let same = a[0] == b[0] && a[1] == b[1] && a[2] == b[2] && a[3] == b[3] && a[4] == b[4];
    assert(same == (a@ =~= b@));
    same
}

/// Reads one word from raw bytes: exactly five lowercase letters, or nothing.
pub fn word_from_bytes(bytes: &[u8]) -> (word: Option<Word>)
    ensures
        word is Some <==> is_word(bytes@),
        word matches Some(w) ==> w@ == bytes@,
{
    if bytes.len() != 5 {
        return None;
    }
    let mut i: usize = 0;
    while i < 5
        invariant
            0 <= i <= 5,
            bytes@.len() == 5,
            forall|k: int| 0 <= k < i ==> is_letter(#[trigger] bytes@[k]),
        decreases 5 - i,
    {
        let b = bytes[i];
        if b < 97 || b > 122 {
            return None;
        }
        i += 1;
    }
    let word: Word = [bytes[0], bytes[1], bytes[2], bytes[3], bytes[4]];
    assert(word@ =~= bytes@);
    Some(word)
}

} // verus!
