//! Encoding of highlighted source text in the escape markup of a print
//! formatter.
//!
//! A highlighter cuts each line of a source file into runs: spans of text
//! that share one style. [`as_enscript_escaped`] writes such runs as text
//! interleaved with font and colour directives. Every executable function
//! here carries a contract that pins its result down, stated over the
//! sequences of characters that strings stand for.
//!
//! Beyond those contracts the library proves of the markup:
//! - what remains of it without the directives is the text of the runs
//!   ([`visible::lemma_text_survives`]);
//! - the line feed of a line comes last, after the resets
//!   ([`line_feed::lemma_newline_placement`]);
//! - italic goes before bold, and without either no font is selected
//!   ([`directive_counts::lemma_italic_before_bold`],
//!   [`directive_counts::lemma_no_font_selected`]);
//! - the background directive is written for every run or for none
//!   ([`directive_counts::lemma_background_toggle`]);
//! - a colour channel is written as the single-precision value nearest to
//!   its fraction of 255, with eight significant digits
//!   ([`channel::lemma_significand_is_nearest`],
//!   [`channel::lemma_eight_significant_digits`]).

pub mod channel;
pub mod digits;
pub mod directive_counts;
pub mod line_feed;
pub mod markup;
pub mod occurrences;
pub mod style;
pub mod visible;

pub use markup::{as_enscript_escaped, strip_trailing_newline};
pub use style::{Color, FontStyle, Style};
