//! The whole per-request pipeline: image to letter grid, grid to capped
//! letter string, letter string to the ten longest dictionary matches.

use vstd::prelude::*;
use vstd::string::StrSliceExecFns;
use vstd::utf8::is_ascii_chars;
use crate::bins::valid_ranking;
use crate::dictionary::{seq_str_has, Dictionary};
use crate::flatten::{
    cap_runs, concat_rows, flatten_letter_matrix_with_limit, lemma_cap_runs_elems,
    lemma_solid_grid_capped,
};
use crate::gray::GrayscaleImage;
use crate::letters::{
    alphabet, grid_dims_ok, grid_from_letters, lemma_letter_map_total, to_letter_matrix_uniform,
    valid_letter_map,
};
use crate::matcher::{find_substring_words_fixed_max, word_matched};

verus! {

/// A grid whose rows all have width `w` concatenates to `rows * w` letters.
pub proof fn lemma_concat_rows_len(g: Seq<Seq<char>>, w: int)
    requires
        forall|y: int| 0 <= y < g.len() ==> (#[trigger] g[y]).len() == w,
    ensures
        concat_rows(g).len() == g.len() * w,
    decreases g.len(),
{
    if g.len() == 0 {
    } else {
        lemma_concat_rows_len(g.drop_last(), w);
        assert((g.len() - 1) * w + w == g.len() * w) by (nonlinear_arith);
    }
}

/// Every letter of the concatenation comes from some row.
proof fn lemma_concat_rows_elem(g: Seq<Seq<char>>, c: char)
    requires
        concat_rows(g).contains(c),
    ensures
        exists|y: int| 0 <= y < g.len() && (#[trigger] g[y]).contains(c),
    decreases g.len(),
{
    let k = choose|k: int| 0 <= k < concat_rows(g).len() && concat_rows(g)[k] == c;
    let left = concat_rows(g.drop_last());
    if k < left.len() {
        assert(left[k] == c);
        lemma_concat_rows_elem(g.drop_last(), c);
        let y = choose|y: int|
            0 <= y < g.drop_last().len() && (#[trigger] g.drop_last()[y]).contains(c);
        assert(g[y].contains(c));
    } else {
        assert(g.last()[k - left.len()] == c);
        assert(g[g.len() - 1].contains(c));
    }
}

/// Every letter of the canonical alphabet is ASCII.
proof fn lemma_alphabet_ascii()
    ensures
        forall|c: char| alphabet().contains(c) ==> '\0' <= c <= '\u{7f}',
{
    assert forall|c: char| alphabet().contains(c) implies '\0' <= c <= '\u{7f}' by {
        let k = choose|k: int| 0 <= k < alphabet().len() && alphabet()[k] == c;
    }
}

/// A solid-color image turns into one capped run: whatever permutation the
/// assigner drew, its letter string holds exactly `cap` letters, or one per
/// pixel if the image has fewer pixels than the cap.
pub proof fn lemma_solid_image_letter_string(
    grid: Seq<Seq<char>>,
    img: GrayscaleImage,
    letters: Seq<char>,
    cap: nat,
)
    requires
        cap >= 1,
        img.wf(),
        letters.to_multiset() == alphabet().to_multiset(),
        letters.no_duplicates(),
        grid_dims_ok(grid, img),
        grid_from_letters(grid, img, letters),
        forall|k1: int, k2: int|
            0 <= k1 < img.pixels@.len() && 0 <= k2 < img.pixels@.len() ==> #[trigger] img.pixels@[k1]
                == #[trigger] img.pixels@[k2],
    ensures
        cap_runs(concat_rows(grid), '_', 0, cap).len() == if img.width * img.height <= cap {
            img.width * img.height
        } else {
            cap as int
        },
{
    broadcast use vstd::seq_lib::group_to_multiset_ensures;

    lemma_concat_rows_len(grid, img.width as int);
    assert(img.height * img.width == img.width * img.height) by (nonlinear_arith);
    if img.pixels@.len() == 0 {
        assert(cap_runs(concat_rows(grid), '_', 0, cap).len() == 0);
    } else {
        let (hist, rk, m): (Seq<u32>, Seq<(usize, u64)>, Seq<char>) = choose|
            hist: Seq<u32>,
            rk: Seq<(usize, u64)>,
            m: Seq<char>,
        |
            {
                &&& #[trigger] crate::gray::hist_ok(hist, img.pixels@)
                &&& valid_ranking(rk, hist)
                &&& #[trigger] valid_letter_map(m, rk, letters)
                &&& crate::letters::grid_matches_map(grid, img, m)
            };
        assert(letters.len() == letters.to_multiset().len());
        assert(alphabet().len() == alphabet().to_multiset().len());
        lemma_letter_map_total(m, rk, letters, hist);
        let v0 = img.pixels@[0];
        let c0 = m[v0 as int];
        assert(letters.contains(c0));
        assert(alphabet().contains(c0)) by {
            let p = choose|p: int| 0 <= p < letters.len() && letters[p] == c0;
            assert(letters.to_multiset().count(c0) > 0);
            assert(alphabet().to_multiset().count(c0) > 0);
        }
        assert(c0 != '_') by {
            if alphabet().contains('_') {
                let k = choose|k: int| 0 <= k < alphabet().len() && alphabet()[k] == '_';
                assert(false);
            }
        }
        assert forall|y: int, x: int|
            0 <= y < grid.len() && 0 <= x < grid[y].len() implies #[trigger] grid[y][x] == c0 by {
            crate::gray::lemma_row_major_index_in_range(
                img.width as int,
                img.height as int,
                y,
                x,
            );
            assert(img.spec_pixel(y, x) == v0);
        }
        lemma_solid_grid_capped(grid, c0, cap);
    }
}

/// Sorts words by non-increasing character length; ties stay in no
/// particular order. The words themselves are kept as they are.
fn sort_words_desc(words: Vec<String>) -> (r: Vec<String>)
    requires
        forall|k1: int, k2: int|
            0 <= k1 < k2 < words@.len() ==> (#[trigger] words@[k1])@ != (#[trigger] words@[k2])@,
    ensures
        r@.len() == words@.len(),
        forall|p: int, q: int|
            0 <= p < q < r@.len() ==> (#[trigger] r@[p])@.len() >= (#[trigger] r@[q])@.len(),
        forall|k1: int, k2: int|
            0 <= k1 < k2 < r@.len() ==> (#[trigger] r@[k1])@ != (#[trigger] r@[k2])@,
        forall|k: int| 0 <= k < r@.len() ==> seq_str_has(words@, (#[trigger] r@[k])@),
        forall|x: Seq<char>| #[trigger] seq_str_has(words@, x) ==> seq_str_has(r@, x),
{
    let ghost ws0 = words@;
    let mut rest = words;
    let mut out: Vec<String> = Vec::new();
    proof {
        assert forall|k: int| 0 <= k < rest@.len() implies seq_str_has(
            ws0,
            (#[trigger] rest@[k])@,
        ) by {
            assert(ws0[k]@ == rest@[k]@);
        }
    }
    while rest.len() > 0
        invariant
            out@.len() + rest@.len() == ws0.len(),
            forall|p: int, q: int|
                0 <= p < q < out@.len() ==> (#[trigger] out@[p])@.len() >= (
                #[trigger] out@[q])@.len(),
            forall|p: int, k: int|
                0 <= p < out@.len() && 0 <= k < rest@.len() ==> (#[trigger] out@[p])@.len() >= (
                #[trigger] rest@[k])@.len(),
            forall|k1: int, k2: int|
                0 <= k1 < k2 < out@.len() ==> (#[trigger] out@[k1])@ != (#[trigger] out@[k2])@,
            forall|k1: int, k2: int|
                0 <= k1 < k2 < rest@.len() ==> (#[trigger] rest@[k1])@ != (#[trigger] rest@[k2])@,
            forall|p: int, k: int|
                0 <= p < out@.len() && 0 <= k < rest@.len() ==> (#[trigger] out@[p])@ != (
                #[trigger] rest@[k])@,
            forall|k: int| 0 <= k < out@.len() ==> seq_str_has(ws0, (#[trigger] out@[k])@),
            forall|k: int| 0 <= k < rest@.len() ==> seq_str_has(ws0, (#[trigger] rest@[k])@),
            forall|x: Seq<char>|
                #[trigger] seq_str_has(ws0, x) ==> seq_str_has(out@, x) || seq_str_has(rest@, x),
        decreases rest@.len(),
    {
        let ghost rest0 = rest@;
        let mut best: usize = 0;
        let mut blen: usize = rest[0].as_str().unicode_len();
        let mut k: usize = 1;
        while k < rest.len()
            invariant
                rest@ == rest0,
                rest@.len() > 0,
                best < k,
                k <= rest@.len(),
                blen == rest@[best as int]@.len(),
                forall|t: int| 0 <= t < k ==> blen >= (#[trigger] rest@[t])@.len(),
            decreases rest@.len() - k,
        {
            let klen = rest[k].as_str().unicode_len();
            if klen > blen {
                best = k;
                blen = klen;
            }
            k += 1;
        }
        let chosen = rest.remove(best);
        proof {
            assert forall|k2: int| 0 <= k2 < rest@.len() implies chosen@.len() >= (
            #[trigger] rest@[k2])@.len() && chosen@ != rest@[k2]@ && seq_str_has(
                ws0,
                rest@[k2]@,
            ) by {
                if k2 < best {
                    assert(rest@[k2] == rest0[k2]);
                } else {
                    assert(rest@[k2] == rest0[k2 + 1]);
                }
            }
            assert forall|k1: int, k2: int| 0 <= k1 < k2 < rest@.len() implies (
            #[trigger] rest@[k1])@ != (#[trigger] rest@[k2])@ by {
                let m1: int = if k1 < best {
                    k1
                } else {
                    k1 + 1
                };
                let m2: int = if k2 < best {
                    k2
                } else {
                    k2 + 1
                };
                assert(rest@[k1] == rest0[m1]);
                assert(rest@[k2] == rest0[m2]);
            }
            assert forall|x: Seq<char>|
                #[trigger] seq_str_has(ws0, x) && seq_str_has(rest0, x) implies (chosen@ == x
                || seq_str_has(rest@, x)) by {
                let t = choose|t: int| 0 <= t < rest0.len() && (#[trigger] rest0[t])@ == x;
                if t < best {
                    assert(rest@[t]@ == x);
                } else if t > best {
                    assert(rest@[t - 1]@ == x);
                }
            }
        }
        let ghost out0 = out@;
        out.push(chosen);
        proof {
            assert forall|x: Seq<char>| #[trigger] seq_str_has(ws0, x) implies (seq_str_has(
                out@,
                x,
            ) || seq_str_has(rest@, x)) by {
                if seq_str_has(out0, x) {
                    let p = choose|p: int| 0 <= p < out0.len() && (#[trigger] out0[p])@ == x;
                    assert(out@[p]@ == x);
                } else if chosen@ == x {
                    assert(out@[out0.len() as int]@ == x);
                }
            }
        }
    }
    out
}

/// Orders the matched words by non-increasing length and keeps the ten
/// longest; which of several equally long words survive the cut is not
/// specified.
pub fn select_top_matches(found: Vec<String>) -> (r: Vec<String>)
    requires
        forall|k1: int, k2: int|
            0 <= k1 < k2 < found@.len() ==> (#[trigger] found@[k1])@ != (#[trigger] found@[k2])@,
    ensures
        r@.len() <= 10,
        r@.len() <= found@.len(),
        forall|p: int, q: int|
            0 <= p < q < r@.len() ==> (#[trigger] r@[p])@.len() >= (#[trigger] r@[q])@.len(),
        forall|k1: int, k2: int|
            0 <= k1 < k2 < r@.len() ==> (#[trigger] r@[k1])@ != (#[trigger] r@[k2])@,
        forall|k: int| 0 <= k < r@.len() ==> seq_str_has(found@, (#[trigger] r@[k])@),
        forall|x: Seq<char>|
            #[trigger] seq_str_has(found@, x) ==> seq_str_has(r@, x) || (r@.len() == 10 && x.len()
                <= r@[9]@.len()),
{
    let mut sorted = sort_words_desc(found);
    let ghost sorted_all = sorted@;
    if sorted.len() > 10 {
        sorted.truncate(10);
    }
    proof {
        assert forall|k: int| 0 <= k < sorted@.len() implies seq_str_has(
            found@,
            (#[trigger] sorted@[k])@,
        ) by {
            assert(seq_str_has(sorted_all, sorted@[k]@));
        }
        assert forall|x: Seq<char>| #[trigger] seq_str_has(found@, x) implies (seq_str_has(
            sorted@,
            x,
        ) || (sorted@.len() == 10 && x.len() <= sorted@[9]@.len())) by {
            assert(seq_str_has(sorted_all, x));
            let t = choose|t: int| 0 <= t < sorted_all.len() && (#[trigger] sorted_all[t])@ == x;
            if t < sorted@.len() {
                assert(sorted@[t]@ == x);
            } else {
                assert(sorted@.len() == 10);
                assert(sorted_all[t]@.len() <= sorted_all[9]@.len());
                assert(sorted@[9] == sorted_all[9]);
            }
        }
    }
    sorted
}

/// Runs the whole pipeline for one request: builds the letter grid for
/// `img` under a fresh random alphabet permutation, flattens it row-major
/// with runs capped at `max_consecutive_letters`, scans the letter string
/// for dictionary words, and returns the ten longest matches (longest first)
/// together with the letter string itself.
pub fn extract_words_and_letters_from_image(
    img: &GrayscaleImage,
    dictionary: &Dictionary,
    max_word_length: usize,
    max_consecutive_letters: usize,
) -> (r: (Vec<String>, String))
    requires
        img.wf(),
        img.pixels@.len() <= u32::MAX,
        max_consecutive_letters >= 1,
    ensures
        exists|letters: Seq<char>, grid: Seq<Seq<char>>|
            {
                &&& #[trigger] letters.to_multiset() == alphabet().to_multiset()
                &&& letters.no_duplicates()
                &&& grid_dims_ok(grid, *img)
                &&& #[trigger] grid_from_letters(grid, *img, letters)
                &&& r.1@ == cap_runs(concat_rows(grid), '_', 0, max_consecutive_letters as nat)
            },
        r.1@.len() <= img.width * img.height,
        r.0@.len() <= 10,
        forall|p: int, q: int|
            0 <= p < q < r.0@.len() ==> (#[trigger] r.0@[p])@.len() >= (#[trigger] r.0@[q])@.len(),
        forall|k1: int, k2: int|
            0 <= k1 < k2 < r.0@.len() ==> (#[trigger] r.0@[k1])@ != (#[trigger] r.0@[k2])@,
        forall|k: int|
            0 <= k < r.0@.len() ==> dictionary.contains_word((#[trigger] r.0@[k])@)
                && word_matched(r.1@, r.0@[k]@, max_word_length),
        (dictionary.words@.len() == 0 || dictionary.has_empty_word()) ==> r.0@.len() == 0,
        (dictionary.words@.len() > 0 && !dictionary.has_empty_word()) ==> forall|x: Seq<char>|
            #[trigger] dictionary.contains_word(x) && word_matched(r.1@, x, max_word_length)
                ==> seq_str_has(r.0@, x) || (r.0@.len() == 10 && x.len() <= r.0@[9]@.len()),
{
    let grid = to_letter_matrix_uniform(img);
    let letter_string = flatten_letter_matrix_with_limit(&grid, max_consecutive_letters);
    proof {
        broadcast use vstd::seq_lib::group_to_multiset_ensures;

        let d = grid.deep_view();
        lemma_concat_rows_len(d, img.width as int);
        assert(img.height * img.width == img.width * img.height) by (nonlinear_arith);
        let letters = choose|letters: Seq<char>|
            {
                &&& #[trigger] letters.to_multiset() == alphabet().to_multiset()
                &&& letters.no_duplicates()
                &&& grid_from_letters(d, *img, letters)
            };
        let (hist, rk, m): (Seq<u32>, Seq<(usize, u64)>, Seq<char>) = choose|
            hist: Seq<u32>,
            rk: Seq<(usize, u64)>,
            m: Seq<char>,
        |
            {
                &&& #[trigger] crate::gray::hist_ok(hist, img.pixels@)
                &&& valid_ranking(rk, hist)
                &&& #[trigger] valid_letter_map(m, rk, letters)
                &&& crate::letters::grid_matches_map(d, *img, m)
            };
        assert(letters.len() == letters.to_multiset().len());
        assert(alphabet().len() == alphabet().to_multiset().len());
        lemma_letter_map_total(m, rk, letters, hist);
        lemma_alphabet_ascii();
        lemma_cap_runs_elems(concat_rows(d), '_', 0, max_consecutive_letters as nat);
        assert forall|i: int|
            0 <= i < letter_string@.len() implies '\0' <= #[trigger] letter_string@[i]
            <= '\u{7f}' by {
            let c = letter_string@[i];
            assert(letter_string@.contains(c));
            assert(concat_rows(d).contains(c));
            lemma_concat_rows_elem(d, c);
            let y = choose|y: int| 0 <= y < d.len() && (#[trigger] d[y]).contains(c);
            let x = choose|x: int| 0 <= x < d[y].len() && d[y][x] == c;
            assert(d[y][x] == m[img.spec_pixel(y, x) as int]);
            assert(letters.contains(c));
            let p = choose|p: int| 0 <= p < letters.len() && letters[p] == c;
            assert(letters.to_multiset().count(c) > 0);
            assert(alphabet().to_multiset().count(c) > 0);
            assert(alphabet().contains(c));
        }
        assert(is_ascii_chars(letter_string@));
    }
    let found = find_substring_words_fixed_max(
        letter_string.as_str(),
        dictionary,
        max_word_length,
    );
    let sorted = select_top_matches(found);
    proof {
        assert forall|k: int| 0 <= k < sorted@.len() implies dictionary.contains_word(
            (#[trigger] sorted@[k])@,
        ) && word_matched(letter_string@, sorted@[k]@, max_word_length) by {
            assert(seq_str_has(found@, sorted@[k]@));
            let u = choose|u: int| 0 <= u < found@.len() && (#[trigger] found@[u])@
                == sorted@[k]@;
        }
    }
    (sorted, letter_string)
}

} // verus!
