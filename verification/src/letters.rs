//! The 26-letter alphabet, its random permutation, and the total map from
//! intensity values to letters.

use vstd::prelude::*;
use vstd::seq_lib::group_to_multiset_ensures;
use rand::seq::SliceRandom;
use crate::bins::{in_bin, rank_before, seq_has_bin, valid_ranking};
use crate::gray::GrayscaleImage;

verus! {

/// The 26 letters in their canonical reference order, most frequent in
/// English text first.
pub open spec fn alphabet() -> Seq<char> {
    seq![
        'e', 'a', 'r', 'i', 'o', 't', 'n', 's', 'l', 'c', 'u', 'd', 'p', 'm', 'h', 'g', 'b', 'f',
        'y', 'w', 'k', 'v', 'x', 'z', 'j', 'q',
    ]
}

/// No letter appears twice in the alphabet.
pub proof fn lemma_alphabet_no_duplicates()
    ensures
        alphabet().len() == 26,
        alphabet().no_duplicates(),
{
}

/// The canonical letter order, as a vector.
pub fn get_english_letter_frequencies() -> (r: Vec<char>)
    ensures
        r@ == alphabet(),
{
    let r: Vec<char> = vec![
        'e', 'a', 'r', 'i', 'o', 't', 'n', 's', 'l', 'c', 'u', 'd', 'p', 'm', 'h', 'g', 'b', 'f',
        'y', 'w', 'k', 'v', 'x', 'z', 'j', 'q',
    ];
    proof {
        assert(r@ =~= alphabet());
    }
    r
}

/// Relies on rand's `SliceRandom::shuffle` (with the thread-local generator):
/// it reorders the elements of the slice in place, adding and removing
/// nothing.
#[verifier::external_body]
fn shuffle_chars(letters: &mut Vec<char>)
    ensures
        final(letters)@.to_multiset() == old(letters)@.to_multiset(),
{
    letters.shuffle(&mut rand::thread_rng());
}

/// Draws a fresh uniformly random permutation of the alphabet.
pub fn shuffled_alphabet() -> (r: Vec<char>)
    ensures
        r@.to_multiset() == alphabet().to_multiset(),
        r@.len() == 26,
        r@.no_duplicates(),
{
    let mut letters = get_english_letter_frequencies();
    shuffle_chars(&mut letters);
    proof {
        broadcast use group_to_multiset_ensures;

        lemma_alphabet_no_duplicates();
        alphabet().lemma_multiset_has_no_duplicates();
        letters@.lemma_multiset_has_no_duplicates_conv();
        assert(letters@.len() == letters@.to_multiset().len());
        assert(alphabet().len() == alphabet().to_multiset().len());
    }
    letters
}

/// `m` is the total intensity-to-letter map read off the ranking `rk`:
/// every intensity inside the `p`-th ranked bin carries the `p`-th letter.
pub open spec fn valid_letter_map(m: Seq<char>, rk: Seq<(usize, u64)>, letters: Seq<char>) -> bool {
    &&& m.len() == 256
    &&& forall|p: int, v: int|
        0 <= p < rk.len() && 0 <= v < 256 && #[trigger] in_bin(v, rk[p].0 as int) ==> m[v]
            == letters[p]
}

/// Builds the intensity-to-letter map: the `p`-th ranked bin's whole interval
/// gets the `p`-th letter of the permuted alphabet.
pub fn build_letter_map(rk: &Vec<(usize, u64)>, letters: &Vec<char>) -> (m: Vec<char>)
    requires
        rk@.len() == 26,
        forall|p: int| 0 <= p < 26 ==> (#[trigger] rk@[p]).0 < 26,
        forall|p: int, q: int|
            0 <= p < q < 26 ==> (#[trigger] rk@[p]).0 != (#[trigger] rk@[q]).0,
        letters@.len() == 26,
    ensures
        valid_letter_map(m@, rk@, letters@),
{
    let mut m: Vec<char> = Vec::new();
    let mut k: usize = 0;
    while k < 256
        invariant
            m@.len() == k,
            k <= 256,
        decreases 256 - k,
    {
        m.push('_');
        k += 1;
    }
    let mut p: usize = 0;
    while p < 26
        invariant
            m@.len() == 256,
            p <= 26,
            rk@.len() == 26,
            letters@.len() == 26,
            forall|t: int| 0 <= t < 26 ==> (#[trigger] rk@[t]).0 < 26,
            forall|t: int, q: int|
                0 <= t < q < 26 ==> (#[trigger] rk@[t]).0 != (#[trigger] rk@[q]).0,
            forall|p2: int, v: int|
                0 <= p2 < p && 0 <= v < 256 && #[trigger] in_bin(v, rk@[p2].0 as int) ==> m@[v]
                    == letters@[p2],
        decreases 26 - p,
    {
        let j = rk[p].0;
        proof {
            crate::bins::lemma_bin_step(j as int);
            crate::bins::lemma_bin_start_mono(j as int + 1, 26);
            crate::bins::lemma_bin_start_mono(0, j as int);
            assert(crate::bins::bin_start(0) == 0);
            assert(crate::bins::bin_start(26) == 256);
        }
        let start: usize = j * 256 / 26;
        let end: usize = (j + 1) * 256 / 26 - 1;
        let mut v: usize = start;
        while v <= end
            invariant
                m@.len() == 256,
                p < 26,
                rk@.len() == 26,
                letters@.len() == 26,
                j == rk@[p as int].0 < 26,
                start == crate::bins::bin_start(j as int),
                end == crate::bins::bin_end(j as int),
                start <= v <= end + 1,
                end < 256,
                forall|t: int| 0 <= t < 26 ==> (#[trigger] rk@[t]).0 < 26,
                forall|t: int, q: int|
                    0 <= t < q < 26 ==> (#[trigger] rk@[t]).0 != (#[trigger] rk@[q]).0,
                forall|p2: int, v2: int|
                    0 <= p2 < p && 0 <= v2 < 256 && #[trigger] in_bin(v2, rk@[p2].0 as int)
                        ==> m@[v2] == letters@[p2],
                forall|v2: int| start <= v2 < v ==> m@[v2] == letters@[p as int],
            decreases end + 1 - v,
        {
            let ghost m0 = m@;
            m.set(v, letters[p]);
            proof {
                assert forall|p2: int, v2: int|
                    0 <= p2 < p && 0 <= v2 < 256 && #[trigger] in_bin(v2, rk@[p2].0 as int)
                        implies m@[v2] == letters@[p2] by {
                    if v2 == v {
                        assert(in_bin(v as int, j as int));
                        crate::bins::lemma_bin_unique(v as int, rk@[p2].0 as int, j as int);
                        assert(false);
                    } else {
                        assert(m@[v2] == m0[v2]);
                    }
                }
            }
            v += 1;
        }
        proof {
            assert forall|p2: int, v2: int|
                0 <= p2 < p + 1 && 0 <= v2 < 256 && #[trigger] in_bin(v2, rk@[p2].0 as int)
                    implies m@[v2] == letters@[p2] by {
                if p2 == p {
                    assert(crate::bins::bin_start(j as int) <= v2 <= crate::bins::bin_end(
                        j as int,
                    ));
                }
            }
        }
        p += 1;
    }
    m
}

/// Every intensity resolves to exactly one of the 26 letters, and each
/// letter covers exactly one ranked bin's interval.
pub proof fn lemma_letter_map_total(
    m: Seq<char>,
    rk: Seq<(usize, u64)>,
    letters: Seq<char>,
    hist: Seq<u32>,
)
    requires
        valid_ranking(rk, hist),
        valid_letter_map(m, rk, letters),
        letters.len() == 26,
        letters.no_duplicates(),
    ensures
        forall|v: int| 0 <= v < 256 ==> letters.contains(#[trigger] m[v]),
        forall|p: int, v: int|
            0 <= p < 26 && 0 <= v < 256 ==> (m[v] == #[trigger] letters[p] <==> #[trigger] in_bin(
                v,
                rk[p].0 as int,
            )),
{
    assert forall|v: int| 0 <= v < 256 implies letters.contains(#[trigger] m[v]) by {
        let p = lemma_ranked_bin_of(m, rk, letters, v);
        assert(letters[p] == m[v]);
    }
    assert forall|p: int, v: int| 0 <= p < 26 && 0 <= v < 256 implies (m[v] == #[trigger] letters[p]
        <==> #[trigger] in_bin(v, rk[p].0 as int)) by {
        if m[v] == letters[p] {
            let q = lemma_ranked_bin_of(m, rk, letters, v);
            assert(letters[p] == letters[q]);
            assert(p == q);
        }
    }
}

/// The grid has one row per pixel row and one letter per pixel.
pub open spec fn grid_dims_ok(grid: Seq<Seq<char>>, img: GrayscaleImage) -> bool {
    &&& grid.len() == img.height
    &&& forall|y: int| 0 <= y < grid.len() ==> (#[trigger] grid[y]).len() == img.width
}

/// Every grid cell carries the letter that the map `m` gives its pixel.
pub open spec fn grid_matches_map(grid: Seq<Seq<char>>, img: GrayscaleImage, m: Seq<char>) -> bool {
    forall|y: int, x: int|
        0 <= y < img.height && 0 <= x < img.width ==> #[trigger] grid[y][x] == m[img.spec_pixel(
            y,
            x,
        ) as int]
}

/// The grid that the pipeline owes for `img` under the permuted alphabet
/// `letters`: letters are assigned to pixels through the histogram ranking.
pub open spec fn grid_from_letters(
    grid: Seq<Seq<char>>,
    img: GrayscaleImage,
    letters: Seq<char>,
) -> bool {
    exists|hist: Seq<u32>, rk: Seq<(usize, u64)>, m: Seq<char>|
        {
            &&& #[trigger] crate::gray::hist_ok(hist, img.pixels@)
            &&& valid_ranking(rk, hist)
            &&& #[trigger] valid_letter_map(m, rk, letters)
            &&& grid_matches_map(grid, img, m)
        }
}

/// Builds the letter grid for `img` from an already permuted alphabet.
/// Tests can pass a fixed permutation and get a fully deterministic grid.
pub fn to_letter_matrix_with_letters(img: &GrayscaleImage, letters: &Vec<char>) -> (grid: Vec<
    Vec<char>,
>)
    requires
        img.wf(),
        img.pixels@.len() <= u32::MAX,
        letters@.len() == 26,
    ensures
        grid_dims_ok(grid.deep_view(), *img),
        grid_from_letters(grid.deep_view(), *img, letters@),
{
    let hist = crate::gray::create_histogram(img);
    let rk = crate::bins::rank_bins(&hist);
    proof {
        assert forall|p: int, q: int| 0 <= p < q < 26 implies (#[trigger] rk@[p]).0 != (
        #[trigger] rk@[q]).0 by {
            if rk@[p].0 == rk@[q].0 {
                assert(rank_before(rk@[p], rk@[q]));
            }
        }
    }
    let m = build_letter_map(&rk, letters);
    let mut grid: Vec<Vec<char>> = Vec::new();
    let mut y: usize = 0;
    while y < img.height
        invariant
            img.wf(),
            m@.len() == 256,
            grid@.len() == y,
            y <= img.height,
            forall|y2: int| 0 <= y2 < y ==> (#[trigger] grid@[y2])@.len() == img.width,
            forall|y2: int, x: int|
                0 <= y2 < y && 0 <= x < img.width ==> #[trigger] grid@[y2]@[x] == m@[
                    img.spec_pixel(y2, x) as int],
        decreases img.height - y,
    {
        let mut row: Vec<char> = Vec::new();
        let mut x: usize = 0;
        while x < img.width
            invariant
                img.wf(),
                m@.len() == 256,
                y < img.height,
                x <= img.width,
                row@.len() == x,
                forall|x2: int|
                    0 <= x2 < x ==> #[trigger] row@[x2] == m@[img.spec_pixel(
                        y as int,
                        x2,
                    ) as int],
            decreases img.width - x,
        {
            let v = img.pixel(y, x);
            row.push(m[v as usize]);
            x += 1;
        }
        grid.push(row);
        y += 1;
    }
    proof {
        assert(grid_matches_map(grid.deep_view(), *img, m@));
        assert(grid_dims_ok(grid.deep_view(), *img));
    }
    grid
}

/// Builds the letter grid for `img` with a freshly drawn random alphabet
/// permutation, as one request of the pipeline does.
pub fn to_letter_matrix_uniform(img: &GrayscaleImage) -> (grid: Vec<Vec<char>>)
    requires
        img.wf(),
        img.pixels@.len() <= u32::MAX,
    ensures
        grid_dims_ok(grid.deep_view(), *img),
        exists|letters: Seq<char>|
            {
                &&& #[trigger] letters.to_multiset() == alphabet().to_multiset()
                &&& letters.no_duplicates()
                &&& grid_from_letters(grid.deep_view(), *img, letters)
            },
{
    let letters = shuffled_alphabet();
    let grid = to_letter_matrix_with_letters(img, &letters);
    proof {
        assert(letters@.to_multiset() == alphabet().to_multiset());
    }
    grid
}

/// Picks out the ranking position whose bin holds intensity `v`.
proof fn lemma_ranked_bin_of(
    m: Seq<char>,
    rk: Seq<(usize, u64)>,
    letters: Seq<char>,
    v: int,
) -> (p: int)
    requires
        rk.len() == 26,
        forall|t: int| 0 <= t < 26 ==> (#[trigger] rk[t]).0 < 26,
        forall|j: usize| j < 26 ==> #[trigger] seq_has_bin(rk, j),
        valid_letter_map(m, rk, letters),
        0 <= v < 256,
    ensures
        0 <= p < 26,
        in_bin(v, rk[p].0 as int),
        m[v] == letters[p],
{
    let j = crate::bins::lemma_bin_of(v);
    assert(seq_has_bin(rk, j as usize));
    let p = choose|p: int| 0 <= p < rk.len() && (#[trigger] rk[p]).0 == j as usize;
    assert(in_bin(v, rk[p].0 as int));
    p
}

} // verus!
