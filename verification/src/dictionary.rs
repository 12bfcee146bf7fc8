//! The word dictionary: a read-only set of unique lowercased words, built
//! once from raw lines and never changed afterwards.

use vstd::prelude::*;
use vstd::string::StringSliceAdditionalSpecFns;
use vstd::utf8::encode_utf8;

verus! {

/// Some entry of `ws` reads `w`.
pub open spec fn seq_str_has(ws: Seq<String>, w: Seq<char>) -> bool {
    exists|j: int| 0 <= j < ws.len() && (#[trigger] ws[j])@ == w
}

/// What `str::to_lowercase` returns for the characters `s`: a function of
/// the characters alone.
pub uninterp spec fn lower_of(s: Seq<char>) -> Seq<char>;

/// Relies on `str::to_lowercase`: the result depends on the characters
/// alone, and an empty string stays empty.
#[verifier::external_body]
fn lowercase(s: &str) -> (r: String)
    ensures
        r@ == lower_of(s@),
        s@.len() == 0 ==> r@.len() == 0,
{
    s.to_lowercase()
}

/// A raw line qualifies for the dictionary when its UTF-8 byte length, as
/// `str::len` reports it, stays within the configured maximum; the filter
/// looks at the line as read, before lowercasing.
pub open spec fn line_qualifies(line: Seq<char>, max_length: usize) -> bool {
    encode_utf8(line).len() as usize <= max_length
}

/// The set of words to search for, shared read-only by every request.
pub struct Dictionary {
    pub words: Vec<String>,
}

impl Dictionary {
    /// No word appears twice.
    pub open spec fn wf(self) -> bool {
        forall|j1: int, j2: int|
            0 <= j1 < j2 < self.words@.len() ==> (#[trigger] self.words@[j1])@ != (
            #[trigger] self.words@[j2])@
    }

    /// Whether the dictionary holds the word `w`.
    pub open spec fn contains_word(self, w: Seq<char>) -> bool {
        seq_str_has(self.words@, w)
    }

    /// Whether the dictionary holds the empty word.
    pub open spec fn has_empty_word(self) -> bool {
        exists|j: int| 0 <= j < self.words@.len() && (#[trigger] self.words@[j])@.len() == 0
    }

    /// Builds the dictionary from raw lines: lines longer than `max_length`
    /// bytes are dropped, the rest are lowercased and deduplicated.
    pub fn from_lines(lines: &Vec<String>, max_length: usize) -> (d: Dictionary)
        ensures
            d.wf(),
            forall|w: Seq<char>|
                #[trigger] d.contains_word(w) <==> exists|j: int|
                    0 <= j < lines@.len() && line_qualifies((#[trigger] lines@[j])@, max_length)
                        && lower_of(lines@[j]@) == w,
    {
        let mut words: Vec<String> = Vec::new();
        let mut i: usize = 0;
        while i < lines.len()
            invariant
                i <= lines@.len(),
                forall|j1: int, j2: int|
                    0 <= j1 < j2 < words@.len() ==> (#[trigger] words@[j1])@ != (
                    #[trigger] words@[j2])@,
                forall|w: Seq<char>|
                    #[trigger] seq_str_has(words@, w) <==> exists|j: int|
                        0 <= j < i && line_qualifies((#[trigger] lines@[j])@, max_length)
                            && lower_of(lines@[j]@) == w,
            decreases lines@.len() - i,
        {
            let ghost words0 = words@;
            let line = &lines[i];
            let ls = line.as_str();
            proof {
                assert(ls.spec_bytes() == encode_utf8(ls@));
                assert(ls@ == lines@[i as int]@);
            }
            if ls.len() <= max_length {
                let low = lowercase(ls);
                if !contains_string(&words, &low) {
                    words.push(low);
                    proof {
                        assert forall|w: Seq<char>| #[trigger] seq_str_has(words@, w) implies (
                        exists|j: int|
                            0 <= j < i + 1 && line_qualifies(
                                (#[trigger] lines@[j])@,
                                max_length,
                            ) && lower_of(lines@[j]@) == w) by {
                            let k = choose|k: int|
                                0 <= k < words@.len() && (#[trigger] words@[k])@ == w;
                            if k < words0.len() {
                                assert(words0[k]@ == w);
                                assert(seq_str_has(words0, w));
                            } else {
                                assert(lines@[i as int]@ == line@);
                                assert(lower_of(lines@[i as int]@) == w);
                            }
                        }
                        assert forall|w: Seq<char>|
                            (exists|j: int|
                                0 <= j < i + 1 && line_qualifies(
                                    (#[trigger] lines@[j])@,
                                    max_length,
                                ) && lower_of(lines@[j]@) == w) implies #[trigger] seq_str_has(
                            words@,
                            w,
                        ) by {
                            let j = choose|j: int|
                                0 <= j < i + 1 && line_qualifies(
                                    (#[trigger] lines@[j])@,
                                    max_length,
                                ) && lower_of(lines@[j]@) == w;
                            if j < i {
                                assert(seq_str_has(words0, w));
                                let k = choose|k: int|
                                    0 <= k < words0.len() && (#[trigger] words0[k])@ == w;
                                assert(words@[k]@ == w);
                            } else {
                                assert(words@[words0.len() as int]@ == w);
                            }
                        }
                    }
                } else {
                    proof {
                        lemma_from_lines_step(words@, lines@, i as int, max_length, true);
                    }
                }
            } else {
                proof {
                    lemma_from_lines_step(words@, lines@, i as int, max_length, false);
                }
            }
            i += 1;
        }
        Dictionary { words }
    }
}

/// When line `i` adds nothing new (it is too long, or its lowercase form is
/// already present), the word set for the first `i + 1` lines is the word
/// set for the first `i` lines.
proof fn lemma_from_lines_step(
    words: Seq<String>,
    lines: Seq<String>,
    i: int,
    max_length: usize,
    qualified: bool,
)
    requires
        0 <= i < lines.len(),
        forall|w: Seq<char>|
            #[trigger] seq_str_has(words, w) <==> exists|j: int|
                0 <= j < i && line_qualifies((#[trigger] lines[j])@, max_length)
                    && lower_of(lines[j]@) == w,
        qualified ==> line_qualifies(lines[i]@, max_length) && seq_str_has(
            words,
            lower_of(lines[i]@),
        ),
        !qualified ==> !line_qualifies(lines[i]@, max_length),
    ensures
        forall|w: Seq<char>|
            #[trigger] seq_str_has(words, w) <==> exists|j: int|
                0 <= j < i + 1 && line_qualifies((#[trigger] lines[j])@, max_length)
                    && lower_of(lines[j]@) == w,
{
    assert forall|w: Seq<char>|
        (exists|j: int|
            0 <= j < i + 1 && line_qualifies((#[trigger] lines[j])@, max_length)
                && lower_of(lines[j]@) == w) implies #[trigger] seq_str_has(words, w) by {
        let j = choose|j: int|
            0 <= j < i + 1 && line_qualifies((#[trigger] lines[j])@, max_length)
                && lower_of(lines[j]@) == w;
        if j == i {
            assert(seq_str_has(words, lower_of(lines[i]@)));
        }
    }
}

/// Whether some entry of `v` reads the same as `s`.
pub fn contains_string(v: &Vec<String>, s: &String) -> (r: bool)
    ensures
        r == seq_str_has(v@, s@),
{
    let mut j: usize = 0;
    while j < v.len()
        invariant
            j <= v@.len(),
            forall|t: int| 0 <= t < j ==> (#[trigger] v@[t])@ != s@,
        decreases v@.len() - j,
    {
        if v[j] == *s {
            proof {
                assert(v@[j as int]@ == s@);
            }
            return true;
        }
        j += 1;
    }
    false
}

} // verus!
