//! Word lists: reading them from text, and putting the guesses together.
//!
//! A list is plain text with one word on each line. A newline at the very end
//! is allowed and starts no further line.

use vstd::prelude::*;
use vstd::slice::slice_subrange;
use crate::word::{Word, is_word, same_word, word_from_bytes};
use crate::tree::NEWLINE;

verus! {

/// A line of a word list that is not a word.
#[derive(Debug, Clone, Copy, PartialEq, Eq)]
pub struct LoadError {
    /// The number of the line, counted from 0.
    pub line: usize,
}

/// Where the line that starts at `from` ends: at the next newline, or at the
/// end of the text.
pub open spec fn line_end(text: Seq<u8>, from: int) -> int
    decreases text.len() - from,
{
    if from < 0 || from >= text.len() || text[from] == NEWLINE {
        from
    } else {
        line_end(text, from + 1)
    }
}

/// The lines of the text from `from` on.
pub open spec fn lines_from(text: Seq<u8>, from: int) -> Seq<Seq<u8>>
    decreases text.len() - from,
{
    if from < 0 || from >= text.len() {
        Seq::empty()
    } else {
        let end = line_end(text, from);
        if end < from || end >= text.len() {
            seq![text.subrange(from, text.len() as int)]
        } else {
            seq![text.subrange(from, end)] + lines_from(text, end + 1)
        }
    }
}

/// The letters of each word.
pub open spec fn spelled(words: Seq<Word>) -> Seq<Seq<u8>> {
    Seq::new(words.len(), |i: int| words[i]@)
}

/// The first in the order of the dictionary, byte by byte.
pub open spec fn lex_lt(a: Seq<u8>, b: Seq<u8>) -> bool {
    a[0] < b[0] || (a[0] == b[0] && (a[1] < b[1] || (a[1] == b[1] && (a[2] < b[2] || (a[2] == b[2]
        && (a[3] < b[3] || (a[3] == b[3] && a[4] < b[4])))))))
}

/// The list holds a word with these letters.
pub open spec fn lists(words: Seq<Word>, w: Seq<u8>) -> bool {
    exists|i: int| 0 <= i < words.len() && (#[trigger] words[i])@ == w
}

/// Every word comes before all later ones in the order of the dictionary.
pub open spec fn strictly_sorted(words: Seq<Word>) -> bool {
    forall|i: int, j: int|
        0 <= i < j < words.len() ==> lex_lt((#[trigger] words[i])@, (#[trigger] words[j])@)
}

proof fn lemma_line_end(text: Seq<u8>, from: int)
    requires
        0 <= from <= text.len(),
    ensures
        from <= line_end(text, from) <= text.len(),
        line_end(text, from) < text.len() ==> text[line_end(text, from)] == NEWLINE,
        forall|k: int| from <= k < line_end(text, from) ==> text[k] != NEWLINE,
    decreases text.len() - from,
{
    if from < text.len() && text[from] != NEWLINE {
        lemma_line_end(text, from + 1);
    }
}

/// Reads a word list.
///
/// The result is the words of the lines, in their order, if every line is a
/// word of five lowercase letters. Otherwise it names the first line that is
/// not.
pub fn parse_words(text: &[u8]) -> (list: Result<Vec<Word>, LoadError>)
    ensures
        match list {
            Ok(words) => {
                &&& spelled(words@) == lines_from(text@, 0)
                &&& forall|i: int| 0 <= i < words@.len() ==> is_word((#[trigger] words@[i])@)
            },
            Err(e) => {
                &&& e.line < lines_from(text@, 0).len()
                &&& !is_word(lines_from(text@, 0)[e.line as int])
                &&& forall|i: int| 0 <= i < e.line ==> is_word(#[trigger] lines_from(text@, 0)[i])
            },
        },
{
    let n = text.len();
    let mut words: Vec<Word> = Vec::new();
    let mut from: usize = 0;
    assert(spelled(words@) =~= Seq::<Seq<u8>>::empty());
    while from < n
        invariant
            from <= n,
            n == text@.len(),
            words@.len() <= from,
            lines_from(text@, 0) == spelled(words@) + lines_from(text@, from as int),
            forall|i: int| 0 <= i < words@.len() ==> is_word((#[trigger] words@[i])@),
        decreases n - from,
    {
        let mut end: usize = from;
        while end < n && text[end] != NEWLINE
            invariant
                from <= end <= n,
                n == text@.len(),
                line_end(text@, from as int) == line_end(text@, end as int),
            decreases n - end,
        {
            end += 1;
        }
        proof {
            lemma_line_end(text@, from as int);
        }
        let line = slice_subrange(text, from, end);
        let ghost rest = if end < n {
            lines_from(text@, end as int + 1)
        } else {
            Seq::<Seq<u8>>::empty()
        };
        assert(lines_from(text@, from as int) =~= seq![line@] + rest);
        match word_from_bytes(line) {
            None => {
                proof {
                    let all = lines_from(text@, 0);
                    assert(all[words@.len() as int] == line@);
                    assert forall|i: int| 0 <= i < words@.len() implies is_word(#[trigger] all[i]) by {
                        assert(all[i] == spelled(words@)[i]);
                    }
                }
                return Err(LoadError { line: words.len() });
            },
            Some(w) => {
                let ghost before = words@;
                words.push(w);
                assert(spelled(words@) =~= spelled(before) + seq![line@]);
                assert(spelled(words@) + rest =~= spelled(before) + (seq![line@] + rest));
            },
        }
        if end < n {
            from = end + 1;
        } else {
            from = n;
        }
    }
    assert(lines_from(text@, n as int) =~= Seq::<Seq<u8>>::empty());
    assert(spelled(words@) + Seq::<Seq<u8>>::empty() =~= spelled(words@));
    Ok(words)
}

/// Sorts the words with std's `sort_unstable`.
///
/// The standard library documents that `sort_unstable` puts a slice in
/// ascending order and keeps every element, and that arrays of bytes are
/// ordered like words in a dictionary, byte by byte.
#[verifier::external_body]
fn sort_words(words: &mut Vec<Word>)
    ensures
        final(words)@.to_multiset() == old(words)@.to_multiset(),
        forall|i: int, j: int|
            0 <= i < j < final(words)@.len() ==> !lex_lt(
                (#[trigger] final(words)@[j])@,
                (#[trigger] final(words)@[i])@,
            ),
{
    words.sort_unstable();
}

/// The vocabulary of guesses.
///
/// With `answers_only` these are the answers as they stand. Otherwise they
/// are the answers and the further words together, each word once, in the
/// order of the dictionary.
pub fn guess_pool(answers: &Vec<Word>, more: &Vec<Word>, answers_only: bool) -> (pool: Vec<Word>)
    ensures
        answers_only ==> spelled(pool@) == spelled(answers@),
        !answers_only ==> strictly_sorted(pool@),
        !answers_only ==> forall|w: Seq<u8>|
            #[trigger] lists(pool@, w) <==> lists(answers@, w) || lists(more@, w),
{
    let mut all: Vec<Word> = Vec::new();
    let n = answers.len();
    let mut i: usize = 0;
    while i < n
        invariant
            i <= n,
            n == answers@.len(),
            all@ == answers@.take(i as int),
        decreases n - i,
    {
        all.push(answers[i]);
        assert(all@ =~= answers@.take(i as int + 1));
        i += 1;
    }
    assert(answers@.take(n as int) =~= answers@);
    if answers_only {
        assert(spelled(all@) =~= spelled(answers@));
        return all;
    }
    let m = more.len();
    let mut k: usize = 0;
    while k < m
        invariant
            k <= m,
            m == more@.len(),
            all@ == answers@ + more@.take(k as int),
        decreases m - k,
    {
        all.push(more[k]);
        assert(all@ =~= answers@ + more@.take(k as int + 1));
        k += 1;
    }
    assert(more@.take(m as int) =~= more@);
    let ghost joined = all@;
    assert(joined == answers@ + more@);
    sort_words(&mut all);
    proof {
        joined.to_multiset_ensures();
        all@.to_multiset_ensures();
        assert forall|x: Word| all@.contains(x) <==> joined.contains(x) by {
            assert(all@.to_multiset().count(x) == joined.to_multiset().count(x));
        }
    }
    let total = all.len();
    let mut pool: Vec<Word> = Vec::new();
    let mut j: usize = 0;
    while j < total
        invariant
            j <= total,
            total == all@.len(),
            forall|a: int, b: int|
                0 <= a < b < all@.len() ==> !lex_lt((#[trigger] all@[b])@, (#[trigger] all@[a])@),
            strictly_sorted(pool@),
            pool@.len() <= j,
            j > 0 ==> pool@.len() > 0 && pool@[pool@.len() - 1]@ == all@[j - 1]@,
            forall|w: Seq<u8>| #[trigger] lists(pool@, w) <==> lists(all@.take(j as int), w),
        decreases total - j,
    {
        let ghost kept = pool@;
        let fresh = if pool.len() == 0 {
            true
        } else {
            !same_word(&pool[pool.len() - 1], &all[j])
        };
        if fresh {
            pool.push(all[j]);
        }
        proof {
            let x = all@[j as int];
            let seen = all@.take(j as int);
            let next = all@.take(j as int + 1);
            assert(next[j as int] == x);
            if fresh {
                assert forall|a: int, b: int| 0 <= a < b < pool@.len() implies lex_lt(
                    (#[trigger] pool@[a])@,
                    (#[trigger] pool@[b])@,
                ) by {
                    if b < kept.len() {
                        assert(pool@[a] == kept[a] && pool@[b] == kept[b]);
                    } else {
                        assert(pool@[a] == kept[a]);
                        assert(j > 0);
                        assert(!lex_lt(all@[j as int]@, all@[j - 1]@));
                        assert(kept[kept.len() - 1]@ == all@[j - 1]@);
                        assert(x@.len() == 5 && all@[j - 1]@.len() == 5);
                        assert(x@ != all@[j - 1]@);
                        if !lex_lt(all@[j - 1]@, x@) {
                            assert(x@ =~= all@[j - 1]@);
                        }
                        if a < kept.len() - 1 {
                            assert(lex_lt(kept[a]@, kept[kept.len() - 1]@));
                        }
                    }
                }
            }
            assert forall|w: Seq<u8>| #[trigger] lists(pool@, w) <==> lists(next, w) by {
                if lists(pool@, w) {
                    let a = choose|a: int| 0 <= a < pool@.len() && (#[trigger] pool@[a])@ == w;
                    if a < kept.len() {
                        assert(kept[a]@ == w);
                        assert(lists(kept, w));
                        assert(lists(seen, w));
                        let b = choose|b: int| 0 <= b < seen.len() && (#[trigger] seen[b])@ == w;
                        assert(next[b]@ == w);
                    } else {
                        assert(next[j as int]@ == w);
                    }
                }
                if lists(next, w) {
                    let b = choose|b: int| 0 <= b < next.len() && (#[trigger] next[b])@ == w;
                    if b < j {
                        assert(seen[b]@ == w);
                        assert(lists(seen, w));
                        assert(lists(kept, w));
                        let a = choose|a: int| 0 <= a < kept.len() && (#[trigger] kept[a])@ == w;
                        assert(pool@[a] == kept[a]);
                    } else {
                        assert(pool@[pool@.len() - 1]@ == w);
                    }
                }
            }
        }
        j += 1;
    }
    proof {
        assert(all@.take(total as int) =~= all@);
        assert forall|w: Seq<u8>| #[trigger] lists(pool@, w) <==> lists(answers@, w) || lists(
            more@,
            w,
        ) by {
            if lists(all@, w) {
                let a = choose|a: int| 0 <= a < all@.len() && (#[trigger] all@[a])@ == w;
                assert(all@.contains(all@[a]));
                assert(joined.contains(all@[a]));
                let b = choose|b: int| 0 <= b < joined.len() && joined[b] == all@[a];
                if b < answers@.len() {
                    assert(answers@[b]@ == w);
                } else {
                    assert(more@[b - answers@.len()]@ == w);
                }
            }
            if lists(answers@, w) {
                let b = choose|b: int| 0 <= b < answers@.len() && (#[trigger] answers@[b])@ == w;
                assert(joined[b] == answers@[b]);
                assert(joined.contains(answers@[b]));
                assert(all@.contains(answers@[b]));
                let a = choose|a: int| 0 <= a < all@.len() && all@[a] == answers@[b];
                assert(all@[a]@ == w);
            }
            if lists(more@, w) {
                let b = choose|b: int| 0 <= b < more@.len() && (#[trigger] more@[b])@ == w;
                assert(joined[answers@.len() + b] == more@[b]);
                assert(joined.contains(more@[b]));
                assert(all@.contains(more@[b]));
                let a = choose|a: int| 0 <= a < all@.len() && all@[a] == more@[b];
                assert(all@[a]@ == w);
            }
        }
    }
    pool
}

} // verus!
