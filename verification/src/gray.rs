//! Grayscale images and their intensity histograms.

use vstd::prelude::*;

verus! {

/// How many times the intensity `v` occurs in the pixel sequence `s`.
pub open spec fn count_val(s: Seq<u8>, v: u8) -> nat
    decreases s.len(),
{
    if s.len() == 0 {
        0
    } else {
        count_val(s.drop_last(), v) + (if s.last() == v {
            1nat
        } else {
            0nat
        })
    }
}

/// An occurrence count never exceeds the length of the sequence.
pub proof fn lemma_count_val_le_len(s: Seq<u8>, v: u8)
    ensures
        count_val(s, v) <= s.len(),
    decreases s.len(),
{
    if s.len() > 0 {
        lemma_count_val_le_len(s.drop_last(), v);
    }
}

/// Sum of the occurrence counts of every intensity in [lo, hi).
pub open spec fn count_sum(s: Seq<u8>, lo: int, hi: int) -> nat
    decreases hi - lo,
{
    if lo >= hi {
        0
    } else {
        count_val(s, lo as u8) + count_sum(s, lo + 1, hi)
    }
}

proof fn lemma_count_sum_empty(lo: int, hi: int)
    ensures
        count_sum(Seq::<u8>::empty(), lo, hi) == 0,
    decreases hi - lo,
{
    if lo < hi {
        lemma_count_sum_empty(lo + 1, hi);
    }
}

proof fn lemma_count_sum_push(s: Seq<u8>, x: u8, lo: int, hi: int)
    requires
        0 <= lo <= hi <= 256,
    ensures
        count_sum(s.push(x), lo, hi) == count_sum(s, lo, hi) + (if lo <= x < hi {
            1nat
        } else {
            0nat
        }),
    decreases hi - lo,
{
    if lo < hi {
        assert(s.push(x).drop_last() =~= s);
        lemma_count_sum_push(s, x, lo + 1, hi);
    }
}

/// Every pixel is counted under exactly one intensity, so the occurrence
/// counts of all 256 intensities add up to the number of pixels.
pub proof fn lemma_count_sum_total(s: Seq<u8>)
    ensures
        count_sum(s, 0, 256) == s.len(),
    decreases s.len(),
{
    if s.len() == 0 {
        lemma_count_sum_empty(0, 256);
        assert(s =~= Seq::<u8>::empty());
    } else {
        let s0 = s.drop_last();
        assert(s =~= s0.push(s.last()));
        lemma_count_sum_total(s0);
        lemma_count_sum_push(s0, s.last(), 0, 256);
    }
}

/// A decoded grayscale image: a width x height grid of 8-bit intensities,
/// stored row-major.
pub struct GrayscaleImage {
    pub width: usize,
    pub height: usize,
    pub pixels: Vec<u8>,
}

impl GrayscaleImage {
    /// The pixel buffer holds exactly one intensity per grid cell.
    pub open spec fn wf(self) -> bool {
        self.pixels@.len() == self.width * self.height
    }

    /// Wraps a raw row-major pixel buffer, checking that its length matches
    /// the claimed dimensions.
    pub fn new(width: usize, height: usize, pixels: Vec<u8>) -> (r: Option<GrayscaleImage>)
        ensures
            match r {
                Some(img) => {
                    &&& img.wf()
                    &&& img.width == width
                    &&& img.height == height
                    &&& img.pixels@ == pixels@
                    &&& pixels@.len() == width * height
                },
                None => pixels@.len() != width * height,
            },
    {
        let len = pixels.len();
        match width.checked_mul(height) {
            Some(n) => {
                if n == len {
                    Some(GrayscaleImage { width, height, pixels })
                } else {
                    None
                }
            },
            None => None,
        }
    }

    /// The intensity of the pixel at column `x` of row `y`.
    pub open spec fn spec_pixel(self, y: int, x: int) -> u8 {
        self.pixels@[y * self.width + x]
    }

    pub fn pixel(&self, y: usize, x: usize) -> (v: u8)
        requires
            self.wf(),
            y < self.height,
            x < self.width,
        ensures
            v == self.spec_pixel(y as int, x as int),
    {
        let len = self.pixels.len();
        proof {
            lemma_row_major_index_in_range(
                self.width as int,
                self.height as int,
                y as int,
                x as int,
            );
            assert(y * self.width + x < len);
        }
        self.pixels[y * self.width + x]
    }
}

/// A row-major index computed from in-range coordinates lands inside the buffer.
pub proof fn lemma_row_major_index_in_range(width: int, height: int, y: int, x: int)
    requires
        0 <= y < height,
        0 <= x < width,
    ensures
        0 <= y * width + x < width * height,
{
    assert(0 <= y * width + x < width * height) by (nonlinear_arith)
        requires
            0 <= y < height,
            0 <= x < width,
    ;
}

/// `hist` is the intensity histogram of `pixels`: one bucket per intensity,
/// each holding that intensity's occurrence count.
pub open spec fn hist_ok(hist: Seq<u32>, pixels: Seq<u8>) -> bool {
    &&& hist.len() == 256
    &&& forall|v: u8| hist[v as int] == count_val(pixels, v)
}

/// Counts how many pixels of `img` carry each of the 256 intensity levels.
///
/// The result has one bucket per intensity, and bucket `v` holds exactly the
/// number of occurrences of `v` in the pixel buffer.
pub fn create_histogram(img: &GrayscaleImage) -> (hist: Vec<u32>)
    requires
        img.wf(),
        img.pixels@.len() <= u32::MAX,
    ensures
        hist_ok(hist@, img.pixels@),
{
    let n = img.pixels.len();
    let mut hist: Vec<u32> = Vec::new();
    let mut k: usize = 0;
    while k < 256
        invariant
            hist@.len() == k,
            k <= 256,
            forall|j: int| 0 <= j < k ==> hist@[j] == 0,
        decreases 256 - k,
    {
        hist.push(0);
        k += 1;
    }
    proof {
        assert(forall|v: u8| count_val(img.pixels@.take(0), v) == 0);
    }
    let mut i: usize = 0;
    while i < n
        invariant
            img.wf(),
            n == img.pixels@.len() <= u32::MAX,
            i <= n,
            hist@.len() == 256,
            forall|v: u8| hist@[v as int] == count_val(img.pixels@.take(i as int), v),
        decreases n - i,
    {
        let intensity = img.pixels[i];
        proof {
            let prefix = img.pixels@.take(i as int + 1);
            assert(prefix.drop_last() =~= img.pixels@.take(i as int));
            assert(prefix.last() == img.pixels@[i as int]);
            lemma_count_val_le_len(img.pixels@.take(i as int), intensity);
            assert(img.pixels@.take(i as int).len() == i);
            assert forall|v: u8| count_val(img.pixels@.take(i as int + 1), v) == count_val(
                img.pixels@.take(i as int),
                v,
            ) + (if v == intensity {
                1nat
            } else {
                0nat
            }) by {
                assert(img.pixels@.take(i as int + 1).drop_last() =~= img.pixels@.take(i as int));
            }
        }
        let cur = hist[intensity as usize];
        hist.set(intensity as usize, cur + 1);
        i += 1;
    }
    proof {
        assert(img.pixels@.take(n as int) =~= img.pixels@);
    }
    hist
}

} // verus!
