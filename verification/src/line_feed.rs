//! Where the line feed of a line stands in its markup.
//!
//! A run that ends with a line terminator is written without it, and one
//! line feed follows the two resets that close the run. So the line feed of a
//! line comes after everything else, and no colour or font is left set
//! across the end of the line.

use vstd::prelude::*;
use crate::markup::{
    background_directive, color_directive, encoded, encoded_run, ends_with_newline,
    font_directive, is_argument_char, lemma_background_directive_shape,
    lemma_color_directive_shape, lemma_encoded_step, resets, run_closing, run_opening,
    without_terminator,
};
use crate::style::Style;

verus! {

/// A sequence ends with what was appended to it last, and with nothing that
/// ends otherwise.
proof fn lemma_suffix_of_sum(a: Seq<char>, b: Seq<char>, other: Seq<char>)
    requires
        b.len() > 0,
        other.len() > 0,
    ensures
        b.is_suffix_of(a + b),
        other.last() != b.last() ==> !other.is_suffix_of(a + b),
{
    let s = a + b;
    assert(s.subrange(s.len() - b.len(), s.len() as int) =~= b);
    if other.is_suffix_of(s) {
        let tail = s.subrange(s.len() - other.len(), s.len() as int);
        assert(tail[other.len() - 1] == s[s.len() - 1]);
    }
}

/// The line feed of a line comes last, after the resets: the markup of a
/// line ends with the two resets and one line feed where the last run ends
/// with a line feed, and with the two resets alone where it does not.
pub proof fn lemma_newline_placement(runs: Seq<(Style, Seq<char>)>, bg: bool)
    requires
        runs.len() > 0,
    ensures
        ends_with_newline(runs.last().1) <==> (resets() + "\n"@).is_suffix_of(encoded(runs, bg)),
        !ends_with_newline(runs.last().1) <==> resets().is_suffix_of(encoded(runs, bg)),
{
    let n = runs.len() as int;
    let (style, text) = runs.last();
    let out = encoded(runs, bg);
    let before = encoded(runs.take(n - 1), bg) + run_opening(style, bg) + without_terminator(text);
    let fed = resets() + "\n"@;
    lemma_encoded_step(runs, bg, n - 1);
    assert(runs.take(n) =~= runs);
    assert(resets().len() > 0 && resets().last() == '}' && fed.last() == '\n') by {
        reveal_strlit("\0font{default}");
        reveal_strlit("\0color{default}");
        reveal_strlit("\n");
    }
    if ends_with_newline(text) {
        assert(out =~= before + fed);
        lemma_suffix_of_sum(before, fed, resets());
    } else {
        assert(out =~= before + resets());
        lemma_suffix_of_sum(before, resets(), fed);
    }
}

/// No directive that opens a run holds a line feed.
proof fn lemma_opening_on_one_line(style: Style, bg: bool)
    ensures
        forall|i: int|
            0 <= i < run_opening(style, bg).len() ==> #[trigger] run_opening(style, bg)[i] != '\n',
{
    let background = if bg {
        background_directive(style.background)
    } else {
        Seq::empty()
    };
    let font = font_directive(style.font_style);
    let color = color_directive(style.foreground);
    assert forall|i: int| 0 <= i < background.len() implies background[i] != '\n' by {
        reveal_strlit("\\bg{");
        lemma_background_directive_shape(style.background);
        assert(i >= 4 && i < background.len() - 1 ==> is_argument_char(background[i]));
    }
    assert forall|i: int| 0 <= i < font.len() implies font[i] != '\n' by {
        reveal_strlit("\0font{Courier-Oblique@6}");
        reveal_strlit("\0font{Courier-Bold@6}");
    }
    assert forall|i: int| 0 <= i < color.len() implies color[i] != '\n' by {
        reveal_strlit("\0color{");
        lemma_color_directive_shape(style.foreground);
        assert(i >= 7 && i < color.len() - 1 ==> is_argument_char(color[i]));
    }
    let opening = run_opening(style, bg);
    assert forall|i: int| 0 <= i < opening.len() implies #[trigger] opening[i] != '\n' by {
        if i < background.len() {
            assert(opening[i] == background[i]);
        } else if i < background.len() + font.len() {
            assert(opening[i] == font[i - background.len()]);
        } else {
            assert(opening[i] == color[i - background.len() - font.len()]);
        }
    }
}

/// Never before the resets: where the text of a run holds no line feed but
/// the one that ends it, the markup of the run holds no line feed but one in
/// its last place, and that one just where the text ends with a line feed.
pub proof fn lemma_line_feed_only_at_end(style: Style, text: Seq<char>, bg: bool)
    requires
        forall|i: int|
            0 <= i < without_terminator(text).len() ==> without_terminator(text)[i] != '\n',
    ensures
        forall|i: int|
            0 <= i < encoded_run(style, text, bg).len() ==> (#[trigger] encoded_run(
                style,
                text,
                bg,
            )[i] == '\n' <==> ends_with_newline(text) && i == encoded_run(style, text, bg).len()
                - 1),
{
    let opening = run_opening(style, bg);
    let kept = without_terminator(text);
    let closing = run_closing(text);
    let out = encoded_run(style, text, bg);
    lemma_opening_on_one_line(style, bg);
    reveal_strlit("\0font{default}");
    reveal_strlit("\0color{default}");
    reveal_strlit("\n");
    assert(resets().len() == 29);
    assert(forall|i: int| 0 <= i < 29 ==> resets()[i] != '\n');
    assert forall|i: int| 0 <= i < out.len() implies (#[trigger] out[i] == '\n'
        <==> ends_with_newline(text) && i == out.len() - 1) by {
        if i < opening.len() {
            assert(out[i] == opening[i]);
        } else if i < opening.len() + kept.len() {
            assert(out[i] == kept[i - opening.len()]);
        } else {
            let k = i - opening.len() - kept.len();
            assert(out[i] == closing[k]);
            if k < 29 {
                assert(closing[k] == resets()[k]);
            }
        }
    }
}

} // verus!
