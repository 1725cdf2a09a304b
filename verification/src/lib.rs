//! A Wordle game analyser: letters, words, alphagrams, guess colouring and the
//! knowledge a player collects from coloured guesses.

pub mod alphagram;
pub mod bits;
pub mod colored_guess;
pub mod counting;
pub mod data_structures;
pub mod game;
pub mod guess_coloring;
pub mod guess_suggestions;
pub mod knowledge;
pub mod letter;
pub mod letter_set;
pub mod possibilities;
pub mod slice_subset;
pub mod test_helpers;
pub mod text;
pub mod word;
