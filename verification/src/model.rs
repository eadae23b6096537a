//! The mathematical model of the stemming engine: what the normalizer,
//! the prefix trimmer and the suffix reducer compute, stated over
//! character sequences.

use vstd::prelude::*;
use crate::unicode::{is_upper, char_lower, lower_of};

verus! {

/// The normalization of one already-lowercased character: umlauts lose
/// their diaeresis, 'ß' becomes "ss", everything else is unchanged.
pub open spec fn norm_one(c: char) -> Seq<char> {
    if c == 'ü' {
        seq!['u']
    } else if c == 'ö' {
        seq!['o']
    } else if c == 'ä' {
        seq!['a']
    } else if c == 'ß' {
        seq!['s', 's']
    } else {
        seq![c]
    }
}

/// `norm_one` applied to every character of a sequence, concatenated.
pub open spec fn norm_seq(s: Seq<char>) -> Seq<char>
    decreases s.len(),
{
    if s.len() == 0 {
        Seq::empty()
    } else {
        norm_seq(s.drop_last()) + norm_one(s.last())
    }
}

/// How many characters of a sequence are 'ß'.  Each one widens to "ss"
/// and therefore adds one extra unit to the logical character count.
pub open spec fn eszett_count(s: Seq<char>) -> int
    decreases s.len(),
{
    if s.len() == 0 {
        0
    } else {
        eszett_count(s.drop_last()) + (if s.last() == 'ß' { 1int } else { 0int })
    }
}

/// The buffer produced by the normalizer: every character is lowercased
/// (possibly to several characters) and each lowercased character is
/// mapped through `norm_one`.
pub open spec fn normalize_buf(word: Seq<char>) -> Seq<char>
    decreases word.len(),
{
    if word.len() == 0 {
        Seq::empty()
    } else {
        normalize_buf(word.drop_last()) + norm_seq(char_lower(word.last()))
    }
}

/// The logical character count after normalization: one per input
/// character, plus one extra for every 'ß' among the lowercased
/// characters.
pub open spec fn normalize_count(word: Seq<char>) -> int
    decreases word.len(),
{
    if word.len() == 0 {
        0
    } else {
        normalize_count(word.drop_last()) + 1 + eszett_count(char_lower(word.last()))
    }
}

/// Left-to-right replacement of every "sch" by the placeholder '$', the
/// way `str::replace` rewrites non-overlapping matches.
pub open spec fn replace_sch(s: Seq<char>) -> Seq<char>
    decreases s.len(),
{
    if s.len() >= 3 && s[0] == 's' && s[1] == 'c' && s[2] == 'h' {
        seq!['$'] + replace_sch(s.skip(3))
    } else if s.len() > 0 {
        seq![s[0]] + replace_sch(s.skip(1))
    } else {
        Seq::empty()
    }
}

/// Left-to-right replacement of every two-character sequence `a` `b` by
/// the placeholder `mark`.
pub open spec fn replace_pair(s: Seq<char>, a: char, b: char, mark: char) -> Seq<char>
    decreases s.len(),
{
    if s.len() >= 2 && s[0] == a && s[1] == b {
        seq![mark] + replace_pair(s.skip(2), a, b, mark)
    } else if s.len() > 0 {
        seq![s[0]] + replace_pair(s.skip(1), a, b, mark)
    } else {
        Seq::empty()
    }
}

/// The three digraph substitutions, applied in order: "sch" becomes '$',
/// then "ei" becomes '%', then "ie" becomes '&'.
pub open spec fn substituted(s: Seq<char>) -> Seq<char> {
    replace_pair(replace_pair(replace_sch(s), 'e', 'i', '%'), 'i', 'e', '&')
}

/// Repeat collapse: a character equal to the previous character of the
/// output built so far is replaced by the marker '*'.
pub open spec fn collapsed(s: Seq<char>) -> Seq<char>
    decreases s.len(),
{
    if s.len() == 0 {
        Seq::empty()
    } else {
        let p = collapsed(s.drop_last());
        p.push(if p.len() > 0 && p.last() == s.last() { '*' } else { s.last() })
    }
}

/// Whether a sequence ends with the two characters `a` `b`.
pub open spec fn ends_with_2(s: Seq<char>, a: char, b: char) -> bool {
    s.len() >= 2 && s[s.len() - 2] == a && s[s.len() - 1] == b
}

/// Whether a sequence ends with the character `a`.
pub open spec fn ends_with_1(s: Seq<char>, a: char) -> bool {
    s.len() >= 1 && s[s.len() - 1] == a
}

/// The suffix-trimming loop: from the encoded buffer `repl`, the
/// retained length `end` and the logical count `n`, the final retained
/// length.  While the count is above the floor of three, a two-character
/// suffix "em", "er" or "nd" is trimmed when the count is above five; a
/// trailing "t" is trimmed unless the word was originally capitalized
/// and the caller did not ask for case-insensitive stemming; a trailing
/// "e", "s" or "n" is always trimmed; otherwise trimming stops.
pub open spec fn trim_end(repl: Seq<char>, end: int, n: int, upper: bool, ci: bool) -> int
    decreases n,
{
    if n > 3 {
        if n > 5 && (ends_with_2(repl, 'e', 'm') || ends_with_2(repl, 'e', 'r') || ends_with_2(
            repl,
            'n',
            'd',
        )) {
            trim_end(repl.take(repl.len() - 2), end - 2, n - 2, upper, ci)
        } else if ((!upper || ci) && ends_with_1(repl, 't')) || ends_with_1(repl, 'e')
            || ends_with_1(repl, 's') || ends_with_1(repl, 'n') {
            trim_end(repl.take(repl.len() - 1), end - 1, n - 1, upper, ci)
        } else {
            end
        }
    } else {
        end
    }
}

/// The logical count after the digraph substitutions: each replacement
/// lowers the count by the number of characters it removed from the
/// buffer.  The repeat collapse re-encodes one character per character
/// and leaves the count unchanged.
pub open spec fn substituted_count(s: Seq<char>, n: int) -> int {
    let removed = s.len() - substituted(s).len();
    if removed <= n {
        n - removed
    } else {
        0
    }
}

/// The retained length computed by the suffix reducer on a buffer whose
/// logical character count is `n`.
pub open spec fn end_offset_spec(word: Seq<char>, n: int, upper: bool, ci: bool) -> int {
    trim_end(
        collapsed(substituted(word)),
        word.len() as int,
        substituted_count(word, n),
        upper,
        ci,
    )
}

/// Whether the normalized buffer triggers the "ge" prefix strip: it
/// starts with "ge" and the logical count is at least six.
pub open spec fn strips_ge(buf: Seq<char>, n: int) -> bool {
    buf.len() >= 2 && buf[0] == 'g' && buf[1] == 'e' && n >= 6
}

/// The stem of a word: normalization, the conditional "ge" strip, then
/// the suffix reducer's boundary applied to the normalized buffer.
pub open spec fn stem_spec(word: Seq<char>, ci: bool) -> Seq<char> {
    if word.len() == 0 {
        Seq::empty()
    } else {
        let buf = normalize_buf(word);
        let n = normalize_count(word);
        let upper = is_upper(word[0]);
        if strips_ge(buf, n) {
            buf.skip(2).take(end_offset_spec(buf.skip(2), n - 2, upper, ci))
        } else {
            buf.take(end_offset_spec(buf, n, upper, ci))
        }
    }
}

/// The segmentation of a word: the lowercased word split at the suffix
/// reducer's boundary, so that the two halves concatenate back to the
/// lowercased word.
pub open spec fn segment_spec(word: Seq<char>, ci: bool) -> (Seq<char>, Seq<char>) {
    if word.len() == 0 {
        (Seq::<char>::empty(), Seq::<char>::empty())
    } else {
        let lw = lower_of(word);
        let end = end_offset_spec(lw, lw.len() as int, is_upper(word[0]), ci);
        (lw.take(end), lw.skip(end))
    }
}

/// Replacing "sch" never lengthens a sequence.
pub proof fn lemma_replace_sch_len(s: Seq<char>)
    ensures
        replace_sch(s).len() <= s.len(),
    decreases s.len(),
{
    if s.len() >= 3 && s[0] == 's' && s[1] == 'c' && s[2] == 'h' {
        lemma_replace_sch_len(s.skip(3));
    } else if s.len() > 0 {
        lemma_replace_sch_len(s.skip(1));
    }
}

/// Replacing a two-character sequence never lengthens a sequence.
pub proof fn lemma_replace_pair_len(s: Seq<char>, a: char, b: char, mark: char)
    ensures
        replace_pair(s, a, b, mark).len() <= s.len(),
    decreases s.len(),
{
    if s.len() >= 2 && s[0] == a && s[1] == b {
        lemma_replace_pair_len(s.skip(2), a, b, mark);
    } else if s.len() > 0 {
        lemma_replace_pair_len(s.skip(1), a, b, mark);
    }
}

/// The digraph substitutions never lengthen a sequence.
pub proof fn lemma_substituted_len(s: Seq<char>)
    ensures
        substituted(s).len() <= s.len(),
{
    lemma_replace_sch_len(s);
    lemma_replace_pair_len(replace_sch(s), 'e', 'i', '%');
    lemma_replace_pair_len(replace_pair(replace_sch(s), 'e', 'i', '%'), 'i', 'e', '&');
}

/// The repeat collapse re-encodes one character per character.
pub proof fn lemma_collapsed_len(s: Seq<char>)
    ensures
        collapsed(s).len() == s.len(),
    decreases s.len(),
{
    if s.len() > 0 {
        lemma_collapsed_len(s.drop_last());
    }
}

/// Trimming only shortens: the final retained length lies between
/// `end - repl.len()` and `end`.
pub proof fn lemma_trim_end_bounds(repl: Seq<char>, end: int, n: int, upper: bool, ci: bool)
    ensures
        end - repl.len() <= trim_end(repl, end, n, upper, ci) <= end,
    decreases n,
{
    if n > 3 {
        if n > 5 && (ends_with_2(repl, 'e', 'm') || ends_with_2(repl, 'e', 'r') || ends_with_2(
            repl,
            'n',
            'd',
        )) {
            lemma_trim_end_bounds(repl.take(repl.len() - 2), end - 2, n - 2, upper, ci);
        } else if ((!upper || ci) && ends_with_1(repl, 't')) || ends_with_1(repl, 'e')
            || ends_with_1(repl, 's') || ends_with_1(repl, 'n') {
            lemma_trim_end_bounds(repl.take(repl.len() - 1), end - 1, n - 1, upper, ci);
        }
    }
}

/// The suffix reducer's boundary always lies within the buffer.
pub proof fn lemma_end_offset_in_range(word: Seq<char>, n: int, upper: bool, ci: bool)
    ensures
        0 <= end_offset_spec(word, n, upper, ci) <= word.len(),
{
    lemma_substituted_len(word);
    lemma_collapsed_len(substituted(word));
    lemma_trim_end_bounds(
        collapsed(substituted(word)),
        word.len() as int,
        substituted_count(word, n),
        upper,
        ci,
    );
}

/// Stemming never lengthens a word whose normalization keeps its
/// character count, that is, a word with no 'ß' and no character whose
/// lowercase mapping is more than one character.
pub proof fn lemma_stem_never_lengthens(word: Seq<char>, ci: bool)
    ensures
        stem_spec(word, ci).len() <= normalize_buf(word).len(),
        normalize_buf(word).len() == word.len() ==> stem_spec(word, ci).len() <= word.len(),
{
    if word.len() > 0 {
        let buf = normalize_buf(word);
        let n = normalize_count(word);
        let upper = is_upper(word[0]);
        if strips_ge(buf, n) {
            lemma_end_offset_in_range(buf.skip(2), n - 2, upper, ci);
        } else {
            lemma_end_offset_in_range(buf, n, upper, ci);
        }
    }
}

} // verus!
