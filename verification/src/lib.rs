//! Turns a decoded grayscale image into a letter string and searches it for
//! dictionary words.
//!
//! The pipeline bins the 256 intensity levels into 26 contiguous ranges,
//! ranks the bins by pixel population, pairs the ranked bins with a randomly
//! permuted 26-letter alphabet, substitutes a letter for every pixel,
//! flattens the letter grid row-major with runs of one letter capped, and
//! scans the resulting string for every dictionary word occurring as a
//! contiguous substring, returning the ten longest matches.

pub mod bins;
pub mod dictionary;
pub mod flatten;
pub mod gray;
pub mod letters;
pub mod matcher;
pub mod pipeline;

pub use gray::GrayscaleImage;
