//! The executable stemming engine, verified against the model: the
//! normalizer, the digraph substitutions, the repeat collapse, the
//! suffix-trimming loop, and the two public entry points.

use vstd::prelude::*;
use crate::model::{
    norm_one, norm_seq, eszett_count, normalize_buf, normalize_count, replace_sch, replace_pair,
    substituted, collapsed, ends_with_2, ends_with_1, trim_end, end_offset_spec, strips_ge,
    stem_spec, segment_spec, lemma_substituted_len, lemma_collapsed_len,
};
use crate::unicode::{
    char_lower, lower_of, char_is_uppercase, char_to_lowercase, str_to_lowercase, str_chars,
    string_from_chars,
};

verus! {

/// The characters of `v` from position `a` up to position `b`.
fn vec_subrange(v: &Vec<char>, a: usize, b: usize) -> (r: Vec<char>)
    requires
        a <= b,
        b <= v@.len(),
    ensures
        r@ == v@.subrange(a as int, b as int),
{
    let mut r: Vec<char> = Vec::new();
    proof {
        assert(v@.subrange(a as int, a as int) =~= Seq::<char>::empty());
    }
    let mut j: usize = a;
    while j < b
        invariant
            a <= j <= b,
            b <= v@.len(),
            r@ == v@.subrange(a as int, j as int),
        decreases b - j,
    {
        let ghost r0 = r@;
        r.push(v[j]);
        proof {
            assert(v@.subrange(a as int, j as int + 1) =~= r0.push(v@[j as int]));
        }
        j += 1;
    }
    r
}

/// Whether `v` ends with the two characters `a` `b`.
fn ends2(v: &Vec<char>, a: char, b: char) -> (r: bool)
    ensures
        r == ends_with_2(v@, a, b),
{
    if v.len() >= 2 {
        let n = v.len();
        v[n - 2] == a && v[n - 1] == b
    } else {
        false
    }
}

/// Whether `v` ends with the character `a`.
fn ends1(v: &Vec<char>, a: char) -> (r: bool)
    ensures
        r == ends_with_1(v@, a),
{
    if v.len() >= 1 {
        let n = v.len();
        v[n - 1] == a
    } else {
        false
    }
}

/// Replaces every "sch" by the placeholder '$', left to right.
fn replace_sch_vec(s: &Vec<char>) -> (r: Vec<char>)
    ensures
        r@ == replace_sch(s@),
{
    let mut out: Vec<char> = Vec::new();
    proof {
        assert(s@.skip(0) =~= s@);
        assert(Seq::<char>::empty() + replace_sch(s@) =~= replace_sch(s@));
    }
    let mut i: usize = 0;
    while i < s.len()
        invariant
            i <= s@.len(),
            out@ + replace_sch(s@.skip(i as int)) == replace_sch(s@),
        decreases s@.len() - i,
    {
        let ghost t = s@.skip(i as int);
        proof {
            assert(t.len() == s@.len() - i);
            assert(t[0] == s@[i as int]);
            if t.len() >= 3 {
                assert(t[1] == s@[i as int + 1]);
                assert(t[2] == s@[i as int + 2]);
            }
        }
        let ghost out0 = out@;
        if s.len() - i >= 3 && s[i] == 's' && s[i + 1] == 'c' && s[i + 2] == 'h' {
            out.push('$');
            proof {
                assert(t.skip(3) =~= s@.skip(i as int + 3));
                assert(replace_sch(t) == seq!['$'] + replace_sch(s@.skip(i as int + 3)));
                assert(out0.push('$') + replace_sch(s@.skip(i as int + 3)) =~= out0 + (seq!['$']
                    + replace_sch(s@.skip(i as int + 3))));
            }
            i += 3;
        } else {
            let c = s[i];
            out.push(c);
            proof {
                assert(t.skip(1) =~= s@.skip(i as int + 1));
                assert(replace_sch(t) == seq![t[0]] + replace_sch(s@.skip(i as int + 1)));
                assert(out0.push(c) + replace_sch(s@.skip(i as int + 1)) =~= out0 + (seq![c]
                    + replace_sch(s@.skip(i as int + 1))));
            }
            i += 1;
        }
    }
    proof {
        assert(s@.skip(s@.len() as int) =~= Seq::<char>::empty());
        assert(out@ + Seq::<char>::empty() =~= out@);
    }
    out
}

/// Replaces every two-character sequence `a` `b` by the placeholder
/// `mark`, left to right.
fn replace_pair_vec(s: &Vec<char>, a: char, b: char, mark: char) -> (r: Vec<char>)
    ensures
        r@ == replace_pair(s@, a, b, mark),
{
    let mut out: Vec<char> = Vec::new();
    proof {
        assert(s@.skip(0) =~= s@);
        assert(Seq::<char>::empty() + replace_pair(s@, a, b, mark) =~= replace_pair(s@, a, b, mark));
    }
    let mut i: usize = 0;
    while i < s.len()
        invariant
            i <= s@.len(),
            out@ + replace_pair(s@.skip(i as int), a, b, mark) == replace_pair(s@, a, b, mark),
        decreases s@.len() - i,
    {
        let ghost t = s@.skip(i as int);
        proof {
            assert(t.len() == s@.len() - i);
            assert(t[0] == s@[i as int]);
            if t.len() >= 2 {
                assert(t[1] == s@[i as int + 1]);
            }
        }
        let ghost out0 = out@;
        if s.len() - i >= 2 && s[i] == a && s[i + 1] == b {
            out.push(mark);
            proof {
                assert(t.skip(2) =~= s@.skip(i as int + 2));
                assert(replace_pair(t, a, b, mark) == seq![mark] + replace_pair(
                    s@.skip(i as int + 2),
                    a,
                    b,
                    mark,
                ));
                assert(out0.push(mark) + replace_pair(s@.skip(i as int + 2), a, b, mark) =~= out0
                    + (seq![mark] + replace_pair(s@.skip(i as int + 2), a, b, mark)));
            }
            i += 2;
        } else {
            let c = s[i];
            out.push(c);
            proof {
                assert(t.skip(1) =~= s@.skip(i as int + 1));
                assert(replace_pair(t, a, b, mark) == seq![t[0]] + replace_pair(
                    s@.skip(i as int + 1),
                    a,
                    b,
                    mark,
                ));
                assert(out0.push(c) + replace_pair(s@.skip(i as int + 1), a, b, mark) =~= out0
                    + (seq![c] + replace_pair(s@.skip(i as int + 1), a, b, mark)));
            }
            i += 1;
        }
    }
    proof {
        assert(s@.skip(s@.len() as int) =~= Seq::<char>::empty());
        assert(out@ + Seq::<char>::empty() =~= out@);
    }
    out
}

/// The repeat collapse: a character equal to the previous character of
/// the output built so far is appended as the marker '*' instead.
pub fn replxx(stem: Vec<char>) -> (result: Vec<char>)
    ensures
        result@ == collapsed(stem@),
{
    let mut result: Vec<char> = Vec::new();
    proof {
        assert(stem@.take(0) =~= Seq::<char>::empty());
    }
    let mut i: usize = 0;
    while i < stem.len()
        invariant
            i <= stem@.len(),
            result@ == collapsed(stem@.take(i as int)),
        decreases stem@.len() - i,
    {
        let c = stem[i];
        let ghost p = result@;
        if result.len() > 0 && result[result.len() - 1] == c {
            result.push('*');
        } else {
            result.push(c);
        }
        proof {
            assert(stem@.take(i as int + 1).drop_last() =~= stem@.take(i as int));
            assert(stem@.take(i as int + 1).last() == stem@[i as int]);
        }
        i += 1;
    }
    proof {
        assert(stem@.take(stem@.len() as int) =~= stem@);
    }
    result
}

/// The suffix reducer's boundary: after the digraph substitutions and
/// the repeat collapse, suffixes are trimmed under the ordered rules
/// while the logical count stays above the floor of three, and the
/// number of retained characters of `word` is returned.
pub fn compute_end_offset(
    word: &Vec<char>,
    num_chars: usize,
    upper: bool,
    case_insensitive: bool,
) -> (end: usize)
    ensures
        end as int == end_offset_spec(word@, num_chars as int, upper, case_insensitive),
        end <= word@.len(),
{
    let s1 = replace_sch_vec(word);
    let s2 = replace_pair_vec(&s1, 'e', 'i', '%');
    let s3 = replace_pair_vec(&s2, 'i', 'e', '&');
    let mut repl = replxx(s3);
    proof {
        lemma_substituted_len(word@);
        lemma_collapsed_len(substituted(word@));
    }
    let removed = word.len() - repl.len();
    let mut n: usize = if removed <= num_chars {
        num_chars - removed
    } else {
        0
    };
    let mut end: usize = word.len();
    while n > 3
        invariant
            trim_end(repl@, end as int, n as int, upper, case_insensitive) == end_offset_spec(
                word@,
                num_chars as int,
                upper,
                case_insensitive,
            ),
            end as int - repl@.len() == word@.len() - collapsed(substituted(word@)).len(),
            repl@.len() <= end <= word@.len(),
        ensures
            end as int == end_offset_spec(word@, num_chars as int, upper, case_insensitive),
            end <= word@.len(),
        decreases n,
    {
        if n > 5 && (ends2(&repl, 'e', 'm') || ends2(&repl, 'e', 'r') || ends2(&repl, 'n', 'd')) {
            let ghost repl0 = repl@;
            let rl = repl.len();
            repl.truncate(rl - 2);
            proof {
                assert(repl@ =~= repl0.take(repl0.len() - 2));
            }
            end = end - 2;
            n = n - 2;
        } else if ((!upper || case_insensitive) && ends1(&repl, 't')) || ends1(&repl, 'e') || ends1(
            &repl,
            's',
        ) || ends1(&repl, 'n') {
            let ghost repl0 = repl@;
            let rl = repl.len();
            repl.truncate(rl - 1);
            proof {
                assert(repl@ =~= repl0.take(repl0.len() - 1));
            }
            end = end - 1;
            n = n - 1;
        } else {
            break;
        }
    }
    end
}

/// The normalizer: lowercases every character, folds umlauts to their
/// base vowels, widens 'ß' to "ss", and returns the buffer together
/// with the logical character count.
fn normalize(wchars: &Vec<char>) -> (r: (Vec<char>, usize))
    requires
        wchars@.len() <= usize::MAX / 2,
    ensures
        r.0@ == normalize_buf(wchars@),
        r.1 as int == normalize_count(wchars@),
{
    let mut buf: Vec<char> = Vec::new();
    let mut extra: usize = 0;
    let mut i: usize = 0;
    proof {
        assert(wchars@.take(0) =~= Seq::<char>::empty());
    }
    while i < wchars.len()
        invariant
            i <= wchars@.len(),
            buf@ == normalize_buf(wchars@.take(i as int)),
            extra as int == normalize_count(wchars@.take(i as int)) - i,
            2 * (extra as int) <= buf@.len(),
        decreases wchars@.len() - i,
    {
        let lv = char_to_lowercase(wchars[i]);
        proof {
            assert(lv@.take(0) =~= Seq::<char>::empty());
        }
        let mut j: usize = 0;
        while j < lv.len()
            invariant
                j <= lv@.len(),
                i < wchars@.len(),
                lv@ == char_lower(wchars@[i as int]),
                buf@ == normalize_buf(wchars@.take(i as int)) + norm_seq(lv@.take(j as int)),
                extra as int == normalize_count(wchars@.take(i as int)) - i + eszett_count(
                    lv@.take(j as int),
                ),
                2 * (extra as int) <= buf@.len(),
            decreases lv@.len() - j,
        {
            let d = lv[j];
            let ghost buf0 = buf@;
            if d == 'ü' {
                buf.push('u');
            } else if d == 'ö' {
                buf.push('o');
            } else if d == 'ä' {
                buf.push('a');
            } else if d == 'ß' {
                buf.push('s');
                buf.push('s');
                let bl = buf.len();
                proof {
                    assert(2 * (extra as int) + 2 <= bl as int);
                }
                extra = extra + 1;
            } else {
                buf.push(d);
            }
            proof {
                assert(lv@.take(j as int + 1).drop_last() =~= lv@.take(j as int));
                assert(lv@.take(j as int + 1).last() == lv@[j as int]);
                assert(norm_seq(lv@.take(j as int + 1)) == norm_seq(lv@.take(j as int)) + norm_one(
                    lv@[j as int],
                ));
                assert(buf@ =~= buf0 + norm_one(lv@[j as int]));
                assert(normalize_buf(wchars@.take(i as int)) + norm_seq(lv@.take(j as int + 1))
                    =~= (normalize_buf(wchars@.take(i as int)) + norm_seq(lv@.take(j as int)))
                    + norm_one(lv@[j as int]));
            }
            j += 1;
        }
        proof {
            assert(lv@.take(lv@.len() as int) =~= lv@);
            assert(wchars@.take(i as int + 1).drop_last() =~= wchars@.take(i as int));
            assert(wchars@.take(i as int + 1).last() == wchars@[i as int]);
        }
        i += 1;
    }
    proof {
        assert(wchars@.take(wchars@.len() as int) =~= wchars@);
    }
    let bl = buf.len();
    proof {
        assert(2 * (extra as int) <= bl as int);
    }
    let count = wchars.len() + extra;
    (buf, count)
}

/// Stems a word: the full pipeline of normalization, the conditional
/// "ge" prefix strip, and the suffix reducer, whose boundary is applied
/// to the normalized buffer so that no placeholder reaches the result.
/// An empty word yields an empty stem.  The length bound keeps the
/// logical character count within `usize`.
pub fn stem(word: &str, case_insensitive: bool) -> (r: String)
    requires
        word@.len() <= usize::MAX / 2,
    ensures
        r@ == stem_spec(word@, case_insensitive),
        word@.len() == 0 ==> r@.len() == 0,
{
    let wchars = str_chars(word);
    if wchars.len() == 0 {
        return String::new();
    }
    let upper = char_is_uppercase(wchars[0]);
    let (normalized, num_chars) = normalize(&wchars);
    let ge_strip: bool = num_chars >= 6 && normalized.len() >= 2 && normalized[0] == 'g'
        && normalized[1] == 'e';
    let (start, m): (usize, usize) = if ge_strip {
        (2, num_chars - 2)
    } else {
        (0, num_chars)
    };
    proof {
        assert(ge_strip == strips_ge(normalize_buf(word@), normalize_count(word@)));
    }
    let b = vec_subrange(&normalized, start, normalized.len());
    proof {
        assert(b@ =~= normalized@.skip(start as int));
    }
    let end = compute_end_offset(&b, m, upper, case_insensitive);
    let kept = vec_subrange(&b, 0, end);
    proof {
        assert(kept@ =~= b@.take(end as int));
        if !ge_strip {
            assert(normalized@.skip(0) =~= normalized@);
        }
    }
    string_from_chars(&kept)
}

/// Segments a word: the word is lowercased (with no other
/// normalization and no prefix strip) and split at the suffix reducer's
/// boundary, so that the two returned parts concatenate back to the
/// lowercased word.  An empty word yields two empty parts.
pub fn segment(word: &str, case_insensitive: bool) -> (r: (String, String))
    ensures
        r.0@ == segment_spec(word@, case_insensitive).0,
        r.1@ == segment_spec(word@, case_insensitive).1,
        r.0@ + r.1@ == lower_of(word@),
        word@.len() == 0 ==> r.0@.len() == 0 && r.1@.len() == 0,
{
    let lw = str_to_lowercase(word);
    let wchars = str_chars(word);
    if wchars.len() == 0 {
        let right = String::new();
        proof {
            assert(lw@ =~= Seq::<char>::empty());
            assert(lw@ + right@ =~= lower_of(word@));
        }
        return (lw, right);
    }
    let upper = char_is_uppercase(wchars[0]);
    let lchars = str_chars(lw.as_str());
    let end = compute_end_offset(&lchars, lchars.len(), upper, case_insensitive);
    let left = vec_subrange(&lchars, 0, end);
    let right = vec_subrange(&lchars, end, lchars.len());
    proof {
        assert(left@ =~= lchars@.take(end as int));
        assert(right@ =~= lchars@.skip(end as int));
        assert(left@ + right@ =~= lchars@);
    }
    let l = string_from_chars(&left);
    let r = string_from_chars(&right);
    (l, r)
}

} // verus!
