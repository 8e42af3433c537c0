//! How often the encoder writes each directive.
//!
//! The background directive is written once for each run where the
//! background is asked for, and never otherwise. Of the two directives that
//! select a font at most one is written for a run: the oblique one where the
//! italic flag is set, the bold one where only the bold flag is. Each count
//! is stated over and above what the text of the runs holds by itself.

use vstd::prelude::*;
use crate::markup::{
    background_directive, color_directive, encoded, encoded_run, ends_with_newline,
    font_directive, is_argument_char, lemma_background_directive_shape,
    lemma_color_directive_shape, run_closing, without_terminator,
};
use crate::occurrences::{
    holds, is_head, is_marker, lemma_count_directive, lemma_count_text, lemma_holds_is_counted,
    lemma_none_in_marker_free, marker_free, occurrences, starts_with,
};
use crate::style::{Color, FontStyle, Style};

verus! {

/// The head of the background directive.
pub open spec fn background_head() -> Seq<char> {
    "\\bg{"@
}

/// The directive that selects the oblique font.
pub open spec fn oblique_select() -> Seq<char> {
    "\0font{Courier-Oblique@6}"@
}

/// The directive that selects the bold font.
pub open spec fn bold_select() -> Seq<char> {
    "\0font{Courier-Bold@6}"@
}

/// Whether `pat` is one of the three that are counted here.
pub open spec fn is_counted(pat: Seq<char>) -> bool {
    pat == background_head() || pat == oblique_select() || pat == bold_select()
}

/// How often the encoder writes `pat` of its own accord in one run.
pub open spec fn written(style: Style, bg: bool, pat: Seq<char>) -> nat {
    (if bg && pat == background_head() {
        1nat
    } else {
        0nat
    }) + (if font_directive(style.font_style) == pat {
        1nat
    } else {
        0nat
    })
}

/// How often the texts of `runs` hold `pat`.
pub open spec fn text_occurrences(runs: Seq<(Style, Seq<char>)>, pat: Seq<char>) -> nat
    decreases runs.len(),
{
    if runs.len() == 0 {
        0
    } else {
        occurrences(runs[0].1, pat) + text_occurrences(runs.drop_first(), pat)
    }
}

/// Each of the three has the shape of a head, and they differ from each
/// other and from the other directives within their first fifteen characters.
proof fn lemma_counted_is_head(pat: Seq<char>)
    requires
        is_counted(pat),
    ensures
        is_head(pat),
        pat[1] == 'b' || pat[1] == 'f',
        pat[0] == '\\' <==> pat == background_head(),
        pat == oblique_select() ==> pat.len() == 24 && pat[14] == 'O',
        pat == bold_select() ==> pat.len() == 21 && pat[14] == 'B',
        pat == background_head() ==> pat.len() == 4,
        pat != background_head() ==> pat[0] == '\0' && pat[6] == 'C',
{
    reveal_strlit("\\bg{");
    reveal_strlit("\0font{Courier-Oblique@6}");
    reveal_strlit("\0font{Courier-Bold@6}");
}

/// In a background directive only the first character is a marker.
proof fn lemma_background_markers(c: Color)
    ensures
        starts_with(background_directive(c), background_head()),
        background_directive(c)[0] == '\\',
        marker_free(background_directive(c).drop_first()),
{
    reveal_strlit("\\bg{");
    lemma_background_directive_shape(c);
    let d = background_directive(c);
    assert forall|i: int| 0 <= i < d.drop_first().len() implies !is_marker(
        #[trigger] d.drop_first()[i],
    ) by {
        assert(d.drop_first()[i] == d[i + 1]);
        assert(i + 1 >= 4 && i + 1 < d.len() - 1 ==> is_argument_char(d[i + 1]));
    }
}

/// In a colour directive only the first character is a marker, and the
/// second is a `c`.
proof fn lemma_color_markers(c: Color)
    ensures
        color_directive(c).len() > 7,
        color_directive(c)[0] == '\0',
        color_directive(c)[1] == 'c',
        marker_free(color_directive(c).drop_first()),
{
    reveal_strlit("\0color{");
    lemma_color_directive_shape(c);
    let d = color_directive(c);
    assert forall|i: int| 0 <= i < d.drop_first().len() implies !is_marker(
        #[trigger] d.drop_first()[i],
    ) by {
        assert(d.drop_first()[i] == d[i + 1]);
        assert(i + 1 >= 7 && i + 1 < d.len() - 1 ==> is_argument_char(d[i + 1]));
    }
}

/// The background directive holds the head once and no font directive.
proof fn lemma_count_background(c: Color, rest: Seq<char>, pat: Seq<char>)
    requires
        is_counted(pat),
    ensures
        occurrences(background_directive(c) + rest, pat) == occurrences(rest, pat) + (if pat
            == background_head() {
            1nat
        } else {
            0nat
        }),
{
    lemma_counted_is_head(pat);
    lemma_background_markers(c);
    let d = background_directive(c);
    lemma_count_directive(d, rest, pat);
    if pat == background_head() {
        assert forall|j: int| 0 <= j < pat.len() implies (d + rest)[j] == pat[j] by {
            assert((d + rest)[j] == d[j]);
        }
    } else {
        assert((d + rest)[0] == d[0]);
    }
}

/// The colour directive holds none of the three.
proof fn lemma_count_color(c: Color, rest: Seq<char>, pat: Seq<char>)
    requires
        is_counted(pat),
    ensures
        occurrences(color_directive(c) + rest, pat) == occurrences(rest, pat),
{
    lemma_counted_is_head(pat);
    lemma_color_markers(c);
    let d = color_directive(c);
    lemma_count_directive(d, rest, pat);
    assert((d + rest)[1] == d[1]);
}

/// A font directive holds itself once and neither of the other two.
proof fn lemma_count_font(f: FontStyle, rest: Seq<char>, pat: Seq<char>)
    requires
        is_counted(pat),
    ensures
        occurrences(font_directive(f) + rest, pat) == occurrences(rest, pat) + (if font_directive(f)
            == pat {
            1nat
        } else {
            0nat
        }),
{
    lemma_counted_is_head(pat);
    let d = font_directive(f);
    if d.len() == 0 {
        assert(d + rest =~= rest);
    } else {
        lemma_counted_is_head(d);
        assert(marker_free(d.drop_first())) by {
            assert forall|i: int| 0 <= i < d.drop_first().len() implies !is_marker(
                #[trigger] d.drop_first()[i],
            ) by {
                assert(d.drop_first()[i] == d[i + 1]);
            }
        }
        lemma_count_directive(d, rest, pat);
        if d == pat {
            assert forall|j: int| 0 <= j < pat.len() implies (d + rest)[j] == pat[j] by {
                assert((d + rest)[j] == d[j]);
            }
        } else {
            assert((d + rest)[0] == d[0]);
            assert((d + rest)[14] == d[14]);
        }
    }
}

/// What closes a run holds none of the three.
proof fn lemma_count_closing(text: Seq<char>, rest: Seq<char>, pat: Seq<char>)
    requires
        is_counted(pat),
    ensures
        occurrences(run_closing(text) + rest, pat) == occurrences(rest, pat),
        run_closing(text).len() > 0,
        run_closing(text)[0] == '\0',
{
    lemma_counted_is_head(pat);
    reveal_strlit("\0font{default}");
    reveal_strlit("\0color{default}");
    reveal_strlit("\n");
    let font_reset = "\0font{default}"@;
    let color_reset = "\0color{default}"@;
    let feed = if ends_with_newline(text) {
        "\n"@
    } else {
        Seq::empty()
    };
    let after_font = color_reset + (feed + rest);
    assert(run_closing(text) + rest =~= font_reset + after_font);
    assert(marker_free(font_reset.drop_first()));
    assert(marker_free(color_reset.drop_first()));
    assert(marker_free(feed));
    lemma_count_directive(font_reset, after_font, pat);
    assert((font_reset + after_font)[0] == font_reset[0]);
    assert((font_reset + after_font)[6] == font_reset[6]);
    lemma_count_directive(color_reset, feed + rest, pat);
    assert((color_reset + (feed + rest))[1] == color_reset[1]);
    lemma_none_in_marker_free(feed, rest, pat);
}

/// A text holds a head as often without its line terminator as with it.
proof fn lemma_count_without_terminator(text: Seq<char>, pat: Seq<char>)
    requires
        is_head(pat),
    ensures
        occurrences(without_terminator(text), pat) == occurrences(text, pat),
{
    let kept = without_terminator(text);
    let taken = text.skip(kept.len() as int);
    assert(text =~= kept + taken);
    if taken.len() > 0 {
        assert(marker_free(taken));
        lemma_count_text(kept, taken, pat);
        lemma_none_in_marker_free(taken, Seq::empty(), pat);
        assert(taken + Seq::<char>::empty() =~= taken);
    }
}

/// One run, followed by anything, holds a counted directive as often as its
/// text and what follows hold it, and once more for each time the encoder
/// wrote it.
proof fn lemma_count_run(style: Style, text: Seq<char>, bg: bool, rest: Seq<char>, pat: Seq<char>)
    requires
        is_counted(pat),
    ensures
        occurrences(encoded_run(style, text, bg) + rest, pat) == written(style, bg, pat)
            + occurrences(text, pat) + occurrences(rest, pat),
{
    lemma_counted_is_head(pat);
    let background = if bg {
        background_directive(style.background)
    } else {
        Seq::empty()
    };
    let font = font_directive(style.font_style);
    let color = color_directive(style.foreground);
    let kept = without_terminator(text);
    let closing = run_closing(text);
    let after_text = closing + rest;
    let after_color = kept + after_text;
    let after_font = color + after_color;
    let after_background = font + after_font;
    assert(encoded_run(style, text, bg) + rest =~= background + after_background);
    lemma_count_closing(text, rest, pat);
    assert(after_text[0] == closing[0]);
    lemma_count_text(kept, after_text, pat);
    lemma_count_without_terminator(text, pat);
    lemma_count_color(style.foreground, after_color, pat);
    lemma_count_font(style.font_style, after_font, pat);
    if bg {
        lemma_count_background(style.background, after_background, pat);
    } else {
        assert(background + after_background =~= after_background);
    }
}

/// The background directive is written once for each run where the
/// background is asked for, and not at all where it is not: the markup holds
/// its head as often as the texts of the runs do, and with the background
/// once more for each run. So without the background, and without the head
/// in any text, the head stands nowhere in the markup.
pub proof fn lemma_background_toggle(runs: Seq<(Style, Seq<char>)>, bg: bool)
    ensures
        occurrences(encoded(runs, bg), background_head()) == text_occurrences(
            runs,
            background_head(),
        ) + (if bg {
            runs.len()
        } else {
            0
        }),
        !bg && text_occurrences(runs, background_head()) == 0 ==> !holds(
            encoded(runs, bg),
            background_head(),
        ),
    decreases runs.len(),
{
    let pat = background_head();
    lemma_holds_is_counted(encoded(runs, bg), pat);
    if runs.len() > 0 {
        let rest = encoded(runs.drop_first(), bg);
        lemma_count_run(runs[0].0, runs[0].1, bg, rest, pat);
        lemma_counted_is_head(pat);
        let font = font_directive(runs[0].0.font_style);
        if font.len() > 0 {
            lemma_counted_is_head(font);
        }
        assert(font != pat);
        lemma_background_toggle(runs.drop_first(), bg);
    }
}

/// One run holds each of the two directives that select a font as often as
/// its text does, and once more where its flags select that font.
proof fn lemma_count_font_selects(style: Style, text: Seq<char>, bg: bool, pat: Seq<char>)
    requires
        pat == oblique_select() || pat == bold_select(),
    ensures
        occurrences(encoded_run(style, text, bg), pat) == occurrences(text, pat) + (
        if font_directive(style.font_style) == pat {
            1nat
        } else {
            0nat
        }),
        holds(encoded_run(style, text, bg), pat) <==> holds(text, pat) || font_directive(
            style.font_style,
        ) == pat,
{
    let run = encoded_run(style, text, bg);
    assert(run + Seq::<char>::empty() =~= run);
    lemma_counted_is_head(pat);
    lemma_count_run(style, text, bg, Seq::empty(), pat);
    lemma_holds_is_counted(run, pat);
    lemma_holds_is_counted(text, pat);
}

/// Italic goes before bold: for a style with the italic flag, whether or not
/// it has the bold flag too, the encoder writes the directive that selects
/// the oblique font once and the one that selects the bold font not at all.
/// The markup of the run holds the first, and it holds the second only where
/// the text of the run does.
pub proof fn lemma_italic_before_bold(style: Style, text: Seq<char>, bg: bool)
    requires
        style.font_style.has(FontStyle::spec_italic()),
    ensures
        occurrences(encoded_run(style, text, bg), oblique_select()) == occurrences(
            text,
            oblique_select(),
        ) + 1,
        occurrences(encoded_run(style, text, bg), bold_select()) == occurrences(
            text,
            bold_select(),
        ),
        holds(encoded_run(style, text, bg), oblique_select()),
        holds(encoded_run(style, text, bg), bold_select()) <==> holds(text, bold_select()),
{
    lemma_counted_is_head(oblique_select());
    lemma_counted_is_head(bold_select());
    lemma_count_font_selects(style, text, bg, oblique_select());
    lemma_count_font_selects(style, text, bg, bold_select());
}

/// Bold alone selects the bold font: for a style with the bold flag and
/// without the italic flag the encoder writes the directive that selects the
/// bold font once and the one that selects the oblique font not at all.
pub proof fn lemma_bold_without_italic(style: Style, text: Seq<char>, bg: bool)
    requires
        style.font_style.has(FontStyle::spec_bold()),
        !style.font_style.has(FontStyle::spec_italic()),
    ensures
        occurrences(encoded_run(style, text, bg), bold_select()) == occurrences(
            text,
            bold_select(),
        ) + 1,
        occurrences(encoded_run(style, text, bg), oblique_select()) == occurrences(
            text,
            oblique_select(),
        ),
        holds(encoded_run(style, text, bg), bold_select()),
        holds(encoded_run(style, text, bg), oblique_select()) <==> holds(text, oblique_select()),
{
    lemma_counted_is_head(oblique_select());
    lemma_counted_is_head(bold_select());
    lemma_count_font_selects(style, text, bg, oblique_select());
    lemma_count_font_selects(style, text, bg, bold_select());
}

/// For a style with neither the italic nor the bold flag, whatever else it
/// has, the encoder writes no directive that selects a font: the markup of
/// the run holds one only where the text of the run does.
pub proof fn lemma_no_font_selected(style: Style, text: Seq<char>, bg: bool)
    requires
        !style.font_style.has(FontStyle::spec_italic()),
        !style.font_style.has(FontStyle::spec_bold()),
    ensures
        occurrences(encoded_run(style, text, bg), oblique_select()) == occurrences(
            text,
            oblique_select(),
        ),
        occurrences(encoded_run(style, text, bg), bold_select()) == occurrences(
            text,
            bold_select(),
        ),
        holds(encoded_run(style, text, bg), oblique_select()) <==> holds(text, oblique_select()),
        holds(encoded_run(style, text, bg), bold_select()) <==> holds(text, bold_select()),
{
    lemma_counted_is_head(oblique_select());
    lemma_counted_is_head(bold_select());
    lemma_count_font_selects(style, text, bg, oblique_select());
    lemma_count_font_selects(style, text, bg, bold_select());
}

} // verus!
