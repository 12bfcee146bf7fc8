use letterscan::bins::{compute_bins, rank_bins, sum_bin};
use letterscan::gray::{create_histogram, GrayscaleImage};

fn image(width: usize, height: usize, pixels: Vec<u8>) -> GrayscaleImage {
    GrayscaleImage::new(width, height, pixels).unwrap()
}

#[test]
fn bins_partition_exactly() {
    let bins = compute_bins();
    assert_eq!(bins.len(), 26);
    assert_eq!(bins[0].0, 0);
    assert_eq!(bins[25].1, 255);
    for j in 0..26 {
        assert!(bins[j].0 <= bins[j].1);
        if j < 25 {
            assert_eq!(bins[j + 1].0, bins[j].1 + 1);
        }
    }
    // every intensity falls in exactly one bin
    for v in 0..=255u8 {
        let holders = bins.iter().filter(|(s, e)| *s <= v && v <= *e).count();
        assert_eq!(holders, 1);
    }
}

#[test]
fn bins_known_boundaries() {
    let bins = compute_bins();
    assert_eq!(bins[0], (0, 8));
    assert_eq!(bins[1], (9, 18));
    assert_eq!(bins[13], (128, 136));
    assert_eq!(bins[25], (246, 255));
}

#[test]
fn histogram_counts_each_intensity() {
    let img = image(3, 2, vec![0, 0, 7, 255, 7, 7]);
    let hist = create_histogram(&img);
    assert_eq!(hist.len(), 256);
    assert_eq!(hist[0], 2);
    assert_eq!(hist[7], 3);
    assert_eq!(hist[255], 1);
    assert_eq!(hist[1], 0);
}

#[test]
fn histogram_total_is_area() {
    let img = image(3, 3, vec![5, 5, 9, 130, 130, 130, 200, 255, 0]);
    let hist = create_histogram(&img);
    let total: u64 = hist.iter().map(|&c| c as u64).sum();
    assert_eq!(total, 9);
}

#[test]
fn bin_sums_cover_all_pixels() {
    let img = image(4, 2, vec![0, 8, 9, 100, 200, 246, 255, 128]);
    let hist = create_histogram(&img);
    let bins = compute_bins();
    let mut total: u64 = 0;
    for j in 0..26 {
        total += sum_bin(&hist, bins[j].0, bins[j].1);
    }
    assert_eq!(total, 8);
}

#[test]
fn all_zero_histogram_ranks_by_index() {
    let hist = vec![0u32; 256];
    let rk = rank_bins(&hist);
    assert_eq!(rk.len(), 26);
    for p in 0..26 {
        assert_eq!(rk[p].0, p);
        assert_eq!(rk[p].1, 0);
    }
}

#[test]
fn most_populous_bin_ranks_first() {
    let img = image(2, 2, vec![255, 255, 255, 0]);
    let hist = create_histogram(&img);
    let rk = rank_bins(&hist);
    // bin 25 holds three pixels, bin 0 one, the rest none
    assert_eq!(rk[0], (25, 3));
    assert_eq!(rk[1], (0, 1));
    // the remaining bins are tied at zero and keep index order
    for p in 2..26 {
        assert_eq!(rk[p].1, 0);
        if p > 2 {
            assert!(rk[p - 1].0 < rk[p].0);
        }
    }
}
