//! The brute-force substring scan: every dictionary word that occurs in the
//! letter string as a contiguous substring, over all window sizes present.

use vstd::prelude::*;
use vstd::string::StrSliceExecFns;
use vstd::string::StringExecFns;
use crate::dictionary::{contains_string, seq_str_has, Dictionary};

verus! {

/// `w` occurs in `text` as a contiguous substring and is no longer than
/// `max_word_len`.
pub open spec fn word_matched(text: Seq<char>, w: Seq<char>, max_word_len: usize) -> bool {
    &&& w.len() <= max_word_len
    &&& exists|i: int|
        0 <= i && i + w.len() <= text.len() && #[trigger] text.subrange(i, i + w.len() as int)
            == w
}

/// The shortest word's length, in characters.
fn min_word_char_len(dict: &Dictionary) -> (m: usize)
    requires
        dict.words@.len() > 0,
    ensures
        forall|j: int| 0 <= j < dict.words@.len() ==> m <= (#[trigger] dict.words@[j])@.len(),
        exists|j: int| 0 <= j < dict.words@.len() && m == (#[trigger] dict.words@[j])@.len(),
{
    let mut m: usize = dict.words[0].as_str().unicode_len();
    let mut j: usize = 1;
    while j < dict.words.len()
        invariant
            1 <= j <= dict.words@.len(),
            forall|t: int| 0 <= t < j ==> m <= (#[trigger] dict.words@[t])@.len(),
            exists|t: int| 0 <= t < j && m == (#[trigger] dict.words@[t])@.len(),
        decreases dict.words@.len() - j,
    {
        let len = dict.words[j].as_str().unicode_len();
        if len < m {
            m = len;
        }
        j += 1;
    }
    m
}

/// Scans `text` for every dictionary word occurring as a contiguous
/// substring, over all window sizes from the shortest word's length up to
/// `max_word_len` (and no longer than the text). Each word is reported once,
/// in no particular order. An empty dictionary, or one holding the empty
/// word, yields no matches at all.
pub fn find_substring_words_fixed_max(
    text: &str,
    dictionary: &Dictionary,
    max_word_len: usize,
) -> (found: Vec<String>)
    requires
        text.is_ascii(),
    ensures
        forall|k1: int, k2: int|
            0 <= k1 < k2 < found@.len() ==> (#[trigger] found@[k1])@ != (#[trigger] found@[k2])@,
        forall|k: int|
            0 <= k < found@.len() ==> dictionary.contains_word((#[trigger] found@[k])@)
                && word_matched(text@, found@[k]@, max_word_len),
        (dictionary.words@.len() == 0 || dictionary.has_empty_word()) ==> found@.len() == 0,
        (dictionary.words@.len() > 0 && !dictionary.has_empty_word()) ==> forall|w: Seq<char>|
            #[trigger] dictionary.contains_word(w) && word_matched(text@, w, max_word_len)
                ==> seq_str_has(found@, w),
{
    let n = text.unicode_len();
    if dictionary.words.len() == 0 {
        return Vec::new();
    }
    let min_len = min_word_char_len(dictionary);
    if min_len == 0 {
        return Vec::new();
    }
    proof {
        if dictionary.has_empty_word() {
            let j = choose|j: int|
                0 <= j < dictionary.words@.len() && (#[trigger] dictionary.words@[j])@.len() == 0;
            assert(min_len <= dictionary.words@[j]@.len());
            assert(false);
        }
    }
    let upper: usize = if max_word_len < n {
        max_word_len
    } else {
        n
    };
    let mut found: Vec<String> = Vec::new();
    let mut w: usize = min_len;
    while w <= upper
        invariant
            text.is_ascii(),
            n == text@.len(),
            dictionary.words@.len() > 0,
            1 <= min_len <= w,
            upper == if max_word_len < n {
                max_word_len as int
            } else {
                n as int
            },
            forall|j: int|
                0 <= j < dictionary.words@.len() ==> min_len <= (
                #[trigger] dictionary.words@[j])@.len(),
            forall|k1: int, k2: int|
                0 <= k1 < k2 < found@.len() ==> (#[trigger] found@[k1])@ != (
                #[trigger] found@[k2])@,
            forall|k: int|
                0 <= k < found@.len() ==> dictionary.contains_word((#[trigger] found@[k])@)
                    && word_matched(text@, found@[k]@, max_word_len),
            forall|x: Seq<char>|
                #[trigger] dictionary.contains_word(x) && word_matched(text@, x, max_word_len)
                    && x.len() < w ==> seq_str_has(found@, x),
        decreases upper + 1 - w,
    {
        let mut i: usize = 0;
        while i <= n - w
            invariant
                text.is_ascii(),
                n == text@.len(),
                1 <= w,
                w <= upper,
                upper <= max_word_len,
                upper <= n,
                i <= n,
                forall|k1: int, k2: int|
                    0 <= k1 < k2 < found@.len() ==> (#[trigger] found@[k1])@ != (
                    #[trigger] found@[k2])@,
                forall|k: int|
                    0 <= k < found@.len() ==> dictionary.contains_word((#[trigger] found@[k])@)
                        && word_matched(text@, found@[k]@, max_word_len),
                forall|x: Seq<char>|
                    #[trigger] dictionary.contains_word(x) && x.len() == w && (exists|t: int|
                        0 <= t < i && #[trigger] text@.subrange(t, t + w) == x) ==> seq_str_has(
                        found@,
                        x,
                    ),
                forall|x: Seq<char>|
                    #[trigger] dictionary.contains_word(x) && word_matched(text@, x, max_word_len)
                        && x.len() < w ==> seq_str_has(found@, x),
            decreases n - i,
        {
            let sub = text.substring_ascii(i, i + w);
            let owned = String::from_str(sub);
            let ghost found0 = found@;
            if contains_string(&dictionary.words, &owned) {
                if !contains_string(&found, &owned) {
                    found.push(owned);
                    proof {
                        assert(found@[found0.len() as int]@ == sub@);
                        assert(seq_str_has(found@, sub@));
                        assert forall|x: Seq<char>| #[trigger] seq_str_has(found0, x) implies
                            seq_str_has(found@, x) by {
                            let k = choose|k: int|
                                0 <= k < found0.len() && (#[trigger] found0[k])@ == x;
                            assert(found@[k]@ == x);
                        }
                    }
                } else {
                    proof {
                        assert(seq_str_has(found@, sub@));
                    }
                }
            }
            proof {
                assert forall|x: Seq<char>|
                    #[trigger] dictionary.contains_word(x) && x.len() == w && (exists|t: int|
                        0 <= t < i + 1 && #[trigger] text@.subrange(t, t + w) == x) implies
                    seq_str_has(found@, x) by {
                    let t = choose|t: int|
                        0 <= t < i + 1 && #[trigger] text@.subrange(t, t + w) == x;
                    if t < i {
                        assert(seq_str_has(found0, x));
                        let k = choose|k: int|
                            0 <= k < found0.len() && (#[trigger] found0[k])@ == x;
                        assert(found@[k]@ == x);
                    } else {
                        assert(x == sub@);
                        assert(seq_str_has(found@, owned@));
                    }
                }
                assert forall|k: int| 0 <= k < found@.len() implies dictionary.contains_word(
                    (#[trigger] found@[k])@,
                ) && word_matched(text@, found@[k]@, max_word_len) by {
                    if k == found0.len() {
                        assert(text@.subrange(i as int, i as int + w) == owned@);
                        assert(word_matched(text@, owned@, max_word_len));
                    }
                }
            }
            i += 1;
        }
        proof {
            assert forall|x: Seq<char>|
                #[trigger] dictionary.contains_word(x) && word_matched(text@, x, max_word_len)
                    && x.len() < w + 1 implies seq_str_has(found@, x) by {
                if x.len() == w {
                    let t = choose|t: int|
                        0 <= t && t + x.len() <= text@.len() && #[trigger] text@.subrange(
                            t,
                            t + x.len() as int,
                        ) == x;
                    assert(t < i);
                    assert(text@.subrange(t, t + w) == x);
                }
            }
        }
        if w == upper {
            proof {
                if dictionary.has_empty_word() {
                    let j = choose|j: int|
                        0 <= j < dictionary.words@.len() && (
                        #[trigger] dictionary.words@[j])@.len() == 0;
                    assert(min_len <= dictionary.words@[j]@.len());
                    assert(false);
                }
                assert forall|x: Seq<char>|
                    #[trigger] dictionary.contains_word(x) && word_matched(
                        text@,
                        x,
                        max_word_len,
                    ) implies seq_str_has(found@, x) by {
                    let j = choose|j: int|
                        0 <= j < dictionary.words@.len() && (#[trigger] dictionary.words@[j])@
                            == x;
                    assert(min_len <= x.len());
                    let t = choose|t: int|
                        0 <= t && t + x.len() <= text@.len() && #[trigger] text@.subrange(
                            t,
                            t + x.len() as int,
                        ) == x;
                    assert(x.len() <= upper);
                    assert(x.len() < w + 1);
                }
            }
            return found;
        }
        w += 1;
    }
    proof {
        assert forall|x: Seq<char>|
            #[trigger] dictionary.contains_word(x) && word_matched(text@, x, max_word_len) implies
            seq_str_has(found@, x) by {
            let j = choose|j: int|
                0 <= j < dictionary.words@.len() && (#[trigger] dictionary.words@[j])@ == x;
            assert(min_len <= x.len());
            let t = choose|t: int|
                0 <= t && t + x.len() <= text@.len() && #[trigger] text@.subrange(
                    t,
                    t + x.len() as int,
                ) == x;
            assert(x.len() <= upper);
            assert(x.len() < w);
        }
    }
    found
}

} // verus!
