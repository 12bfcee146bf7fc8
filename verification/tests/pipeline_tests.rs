use letterscan::dictionary::Dictionary;
use letterscan::gray::GrayscaleImage;
use letterscan::letters::get_english_letter_frequencies;
use letterscan::pipeline::extract_words_and_letters_from_image;

fn image(width: usize, height: usize, pixels: Vec<u8>) -> GrayscaleImage {
    GrayscaleImage::new(width, height, pixels).unwrap()
}

fn dict(words: &[&str]) -> Dictionary {
    Dictionary { words: words.iter().map(|w| w.to_string()).collect() }
}

#[test]
fn image_dimensions_must_match_the_buffer() {
    assert!(GrayscaleImage::new(3, 2, vec![0; 6]).is_some());
    assert!(GrayscaleImage::new(3, 2, vec![0; 5]).is_none());
    assert!(GrayscaleImage::new(usize::MAX, 2, vec![0; 4]).is_none());
}

#[test]
fn solid_image_yields_a_two_letter_string() {
    let img = image(3, 3, vec![128; 9]);
    let (words, letter_string) = extract_words_and_letters_from_image(&img, &dict(&[]), 10, 2);
    assert!(words.is_empty());
    assert_eq!(letter_string.len(), 2);
    let chars: Vec<char> = letter_string.chars().collect();
    assert_eq!(chars[0], chars[1]);
    assert!(chars[0].is_ascii_lowercase());
}

#[test]
fn letter_string_never_exceeds_the_pixel_count() {
    let img = image(4, 3, vec![0, 30, 60, 90, 120, 150, 180, 210, 240, 255, 5, 5]);
    let (_, letter_string) = extract_words_and_letters_from_image(&img, &dict(&[]), 10, 2);
    assert!(letter_string.len() <= 12);
    assert!(!letter_string.is_empty());
}

#[test]
fn single_pixel_letter_is_found_with_a_full_dictionary() {
    // whatever letter the random permutation assigns, the dictionary holds it
    let all_letters: Vec<&str> = vec![
        "e", "a", "r", "i", "o", "t", "n", "s", "l", "c", "u", "d", "p", "m", "h", "g", "b", "f",
        "y", "w", "k", "v", "x", "z", "j", "q",
    ];
    let img = image(1, 1, vec![42]);
    let (words, letter_string) = extract_words_and_letters_from_image(
        &img,
        &dict(&all_letters),
        10,
        2,
    );
    assert_eq!(letter_string.len(), 1);
    assert_eq!(words, vec![letter_string]);
}

#[test]
fn empty_word_in_dictionary_disables_matching() {
    let img = image(2, 2, vec![10, 10, 200, 200]);
    let (words, letter_string) = extract_words_and_letters_from_image(
        &img,
        &dict(&["", "a", "b"]),
        10,
        2,
    );
    assert!(words.is_empty());
    assert!(!letter_string.is_empty());
}

#[test]
fn canonical_alphabet_is_exported() {
    assert_eq!(get_english_letter_frequencies().len(), 26);
}
