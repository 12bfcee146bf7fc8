use letterscan::gray::GrayscaleImage;
use letterscan::letters::{
    get_english_letter_frequencies, shuffled_alphabet, to_letter_matrix_uniform,
    to_letter_matrix_with_letters,
};

fn image(width: usize, height: usize, pixels: Vec<u8>) -> GrayscaleImage {
    GrayscaleImage::new(width, height, pixels).unwrap()
}

#[test]
fn alphabet_is_the_canonical_order() {
    let letters = get_english_letter_frequencies();
    let expected = vec![
        'e', 'a', 'r', 'i', 'o', 't', 'n', 's', 'l', 'c', 'u', 'd', 'p', 'm', 'h', 'g', 'b', 'f',
        'y', 'w', 'k', 'v', 'x', 'z', 'j', 'q',
    ];
    assert_eq!(letters, expected);
}

#[test]
fn shuffled_alphabet_is_a_permutation() {
    let mut shuffled = shuffled_alphabet();
    assert_eq!(shuffled.len(), 26);
    shuffled.sort();
    let mut canonical = get_english_letter_frequencies();
    canonical.sort();
    assert_eq!(shuffled, canonical);
}

#[test]
fn grid_dimensions_match_image() {
    let img = image(4, 2, vec![0, 50, 100, 150, 200, 250, 10, 20]);
    let grid = to_letter_matrix_uniform(&img);
    assert_eq!(grid.len(), 2);
    for row in &grid {
        assert_eq!(row.len(), 4);
    }
}

#[test]
fn grid_of_empty_image_is_empty() {
    let img = image(0, 0, vec![]);
    let grid = to_letter_matrix_uniform(&img);
    assert_eq!(grid.len(), 0);
}

#[test]
fn fixed_letters_give_a_deterministic_grid() {
    // pixels 0 and 0 fill bin 0 (two pixels), pixel 9 falls in bin 1 (one);
    // bin 0 ranks first and takes the first letter, bin 1 the second
    let img = image(3, 1, vec![0, 0, 9]);
    let letters = get_english_letter_frequencies();
    let grid = to_letter_matrix_with_letters(&img, &letters);
    assert_eq!(grid, vec![vec!['e', 'e', 'a']]);
}

#[test]
fn same_bin_same_letter_distinct_bins_distinct_letters() {
    let img = image(4, 1, vec![0, 8, 9, 255]);
    let letters = get_english_letter_frequencies();
    let grid = to_letter_matrix_with_letters(&img, &letters);
    // 0 and 8 share bin 0, 9 sits in bin 1, 255 in bin 25
    assert_eq!(grid[0][0], grid[0][1]);
    assert_ne!(grid[0][0], grid[0][2]);
    assert_ne!(grid[0][0], grid[0][3]);
    assert_ne!(grid[0][2], grid[0][3]);
}

#[test]
fn every_cell_is_an_alphabet_letter() {
    let pixels: Vec<u8> = (0..=255u8).collect();
    let img = image(16, 16, pixels);
    let grid = to_letter_matrix_uniform(&img);
    for row in &grid {
        for &c in row {
            assert!(c.is_ascii_lowercase());
        }
    }
}
