//! Conversion of natural numbers of arbitrary magnitude between user-defined
//! numeral systems, using binary as a pivot radix.
//!
//! A numeral system is an ordered set of equal-length digit strings, possibly
//! built as the Cartesian product of several digit classes, together with an
//! optional literal prefix. Any digit string of one system can be converted to
//! the equivalent digit string of another with [`BibiCoder::swap`].

use vstd::prelude::*;

mod alphabet;
mod coder;
mod digitmaps;
mod extract;
mod numeral;
mod tags;

pub use coder::{
    all_chunks_found, bits_ints, bits_value, chunk_count, chunk_indices, chunk_of, convert_spec,
    lemma_parse_render, lemma_round_trip, parse_value, render_value, strip_prefix, usize_ints,
    BibiCoder,
};
pub use alphabet::{
    buildable, class_views, class_views_owned, has_unique_match, joined_digits,
    lemma_combined_radix, lemma_empty_prefix_no_ambiguity, matches_prefix, string_views,
    unique_match_at, views_of, NsView, NumeralSystem, MAX_RADIX,
};
pub use extract::{extracted, regex_groups, regex_ok, unwrap_somes};
pub use tags::{chin_digits, known_tag, spec_char, tag_classes, tag_names, tag_prefix};
pub use numeral::{
    classes_width, concat_digits, digits_in_range, distinct_seqs, first_index_of, product_digits,
    radix_of, repr_le, valid_class, valid_classes, value_be, value_le,
};

verus! {

/// Errors reported by numeral system construction, conversion and extraction.
#[derive(Debug)]
pub enum BibiError {
    /// Malformed numeral system: every class must be nonempty, its digits of
    /// one positive length, and the combined digit set unique with at least
    /// two digits.
    BadNumeralSystem,
    /// A chunk of the input is not a digit of the source numeral system.
    EntryMismatchWithNumeralSystem,
    /// The extraction pattern compiled but did not match the given text.
    RegexMismatchWithEntry,
    /// Unknown pre-defined numeral system tag.
    BadTagNumeralSystem,
    /// The extraction pattern failed to compile.
    BadRegularExpression,
}

} // verus!
