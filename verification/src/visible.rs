//! The text that remains of markup once its directives are taken out.
//!
//! A reader of the markup takes everything from the head of a directive to
//! the next closing brace as the directive, and the rest as text. What
//! remains of the encoded form of a line is the line: each run's text, with
//! the line terminator of a run as a line feed. This holds where the text of
//! the line does not itself hold the head of a directive.

use vstd::prelude::*;
use crate::markup::{
    background_directive, color_directive, encoded, encoded_run, ends_with_newline,
    font_directive, is_argument_char, lemma_background_directive_shape,
    lemma_color_directive_shape, run_closing, without_terminator,
};
use crate::occurrences::{is_marker, starts_with};
use crate::style::{Color, FontStyle, Style};

verus! {

/// Whether `s` begins with the head of a directive.
pub open spec fn opens_directive(s: Seq<char>) -> bool {
    starts_with(s, "\\bg{"@) || starts_with(s, "\0font{"@) || starts_with(s, "\0color{"@)
}

/// What follows the first closing brace of `s`; nothing where it has none.
pub open spec fn after_brace(s: Seq<char>) -> Seq<char>
    decreases s.len(),
{
    if s.len() == 0 {
        s
    } else if s[0] == '}' {
        s.drop_first()
    } else {
        after_brace(s.drop_first())
    }
}

/// What follows the first closing brace is shorter than the whole.
pub proof fn lemma_after_brace_shorter(s: Seq<char>)
    ensures
        after_brace(s).len() <= s.len(),
        s.len() > 0 ==> after_brace(s).len() < s.len(),
    decreases s.len(),
{
    if s.len() > 0 && s[0] != '}' {
        lemma_after_brace_shorter(s.drop_first());
    }
}

/// The text of `s`: its characters in order, without the directives.
pub open spec fn visible_text(s: Seq<char>) -> Seq<char>
    decreases s.len(),
{
    if s.len() == 0 {
        Seq::empty()
    } else if opens_directive(s) {
        proof {
            lemma_after_brace_shorter(s);
        }
        visible_text(after_brace(s))
    } else {
        seq![s[0]] + visible_text(s.drop_first())
    }
}

/// Whether the head of a directive stands nowhere in `text`.
pub open spec fn is_plain_text(text: Seq<char>) -> bool {
    forall|k: int| 0 <= k < text.len() ==> !opens_directive(#[trigger] text.skip(k))
}

/// Whether `text` ends with a carriage return and a line feed.
pub open spec fn ends_with_crlf(text: Seq<char>) -> bool {
    text.len() >= 2 && text[text.len() - 2] == '\r' && text.last() == '\n'
}

/// `text` with its line terminator, if it has one, as a line feed.
pub open spec fn with_line_feed(text: Seq<char>) -> Seq<char> {
    without_terminator(text) + (if ends_with_newline(text) {
        "\n"@
    } else {
        Seq::empty()
    })
}

/// The texts of `runs`, one after the other.
pub open spec fn joined_text(runs: Seq<(Style, Seq<char>)>) -> Seq<char>
    decreases runs.len(),
{
    if runs.len() == 0 {
        Seq::empty()
    } else {
        runs[0].1 + joined_text(runs.drop_first())
    }
}

/// The texts of `runs`, one after the other, each line terminator as a line
/// feed.
pub open spec fn joined_lines(runs: Seq<(Style, Seq<char>)>) -> Seq<char>
    decreases runs.len(),
{
    if runs.len() == 0 {
        Seq::empty()
    } else {
        with_line_feed(runs[0].1) + joined_lines(runs.drop_first())
    }
}

/// Past a stretch without a closing brace and the brace that follows it.
proof fn lemma_after_brace_found(a: Seq<char>, rest: Seq<char>)
    requires
        forall|i: int| 0 <= i < a.len() ==> a[i] != '}',
    ensures
        after_brace(a + seq!['}'] + rest) == rest,
    decreases a.len(),
{
    let s = a + seq!['}'] + rest;
    if a.len() == 0 {
        assert(s.drop_first() =~= rest);
    } else {
        assert(s[0] == a[0]);
        assert(s.drop_first() =~= a.drop_first() + seq!['}'] + rest);
        lemma_after_brace_found(a.drop_first(), rest);
    }
}

/// A directive, from its head to its only closing brace, is no text.
proof fn lemma_directive_invisible(d: Seq<char>, rest: Seq<char>)
    requires
        opens_directive(d),
        d.last() == '}',
        forall|i: int| 0 <= i < d.len() - 1 ==> d[i] != '}',
    ensures
        visible_text(d + rest) == visible_text(rest),
{
    reveal_strlit("\\bg{");
    reveal_strlit("\0font{");
    reveal_strlit("\0color{");
    let s = d + rest;
    assert(opens_directive(s)) by {
        assert(forall|j: int| 0 <= j < d.len() ==> s[j] == d[j]);
    }
    assert(s =~= d.drop_last() + seq!['}'] + rest);
    lemma_after_brace_found(d.drop_last(), rest);
}

/// Plain text is all text, where what follows it begins with a marker or
/// nothing follows.
proof fn lemma_plain_text_visible(t: Seq<char>, rest: Seq<char>)
    requires
        is_plain_text(t),
        rest.len() == 0 || is_marker(rest[0]),
    ensures
        visible_text(t + rest) == t + visible_text(rest),
    decreases t.len(),
{
    let s = t + rest;
    if t.len() == 0 {
        assert(s =~= rest);
        assert(t + visible_text(rest) =~= visible_text(rest));
    } else {
        reveal_strlit("\\bg{");
        reveal_strlit("\0font{");
        reveal_strlit("\0color{");
        assert(t.skip(0) =~= t);
        assert(!opens_directive(t));
        assert forall|head: Seq<char>|
            head == "\\bg{"@ || head == "\0font{"@ || head == "\0color{"@ implies !starts_with(
            s,
            head,
        ) by {
            if starts_with(s, head) {
                if head.len() > t.len() {
                    assert(s[t.len() as int] == rest[0]);
                    assert(head[t.len() as int] == rest[0]);
                } else {
                    assert forall|j: int| 0 <= j < head.len() implies t[j] == head[j] by {
                        assert(s[j] == t[j]);
                    }
                    assert(starts_with(t, head));
                }
            }
        }
        assert(!opens_directive(s));
        assert(s.drop_first() =~= t.drop_first() + rest);
        assert(is_plain_text(t.drop_first())) by {
            assert forall|k: int| 0 <= k < t.drop_first().len() implies !opens_directive(
                #[trigger] t.drop_first().skip(k),
            ) by {
                assert(t.drop_first().skip(k) =~= t.skip(k + 1));
            }
        }
        lemma_plain_text_visible(t.drop_first(), rest);
        assert(seq![s[0]] + (t.drop_first() + visible_text(rest)) =~= t + visible_text(rest));
    }
}

/// A background directive, from its head to its closing brace, is no text.
proof fn lemma_background_invisible(c: Color, rest: Seq<char>)
    ensures
        visible_text(background_directive(c) + rest) == visible_text(rest),
{
    reveal_strlit("\\bg{");
    lemma_background_directive_shape(c);
    let d = background_directive(c);
    assert forall|i: int| 0 <= i < d.len() - 1 implies d[i] != '}' by {
        assert(i >= 4 ==> is_argument_char(d[i]));
    }
    lemma_directive_invisible(d, rest);
}

/// A colour directive, from its head to its closing brace, is no text.
proof fn lemma_color_invisible(c: Color, rest: Seq<char>)
    ensures
        visible_text(color_directive(c) + rest) == visible_text(rest),
{
    reveal_strlit("\0color{");
    lemma_color_directive_shape(c);
    let d = color_directive(c);
    assert forall|i: int| 0 <= i < d.len() - 1 implies d[i] != '}' by {
        assert(i >= 7 ==> is_argument_char(d[i]));
    }
    lemma_directive_invisible(d, rest);
}

/// What selects a font is no text.
proof fn lemma_font_invisible(f: FontStyle, rest: Seq<char>)
    ensures
        visible_text(font_directive(f) + rest) == visible_text(rest),
{
    let d = font_directive(f);
    if d.len() == 0 {
        assert(d + rest =~= rest);
    } else {
        reveal_strlit("\0font{");
        reveal_strlit("\0font{Courier-Oblique@6}");
        reveal_strlit("\0font{Courier-Bold@6}");
        assert(starts_with(d, "\0font{"@));
        lemma_directive_invisible(d, rest);
    }
}

/// What closes a run shows as the line feed in it, if there is one.
proof fn lemma_closing_visible(text: Seq<char>, rest: Seq<char>)
    ensures
        visible_text(run_closing(text) + rest) == (if ends_with_newline(text) {
            "\n"@
        } else {
            Seq::empty()
        }) + visible_text(rest),
{
    reveal_strlit("\\bg{");
    reveal_strlit("\0font{");
    reveal_strlit("\0color{");
    reveal_strlit("\0font{default}");
    reveal_strlit("\0color{default}");
    reveal_strlit("\n");
    let font_reset = "\0font{default}"@;
    let color_reset = "\0color{default}"@;
    let feed = if ends_with_newline(text) {
        "\n"@
    } else {
        Seq::empty()
    };
    let fed = feed + rest;
    assert(run_closing(text) + rest =~= font_reset + (color_reset + fed));
    assert(starts_with(font_reset, "\0font{"@));
    assert(starts_with(color_reset, "\0color{"@));
    lemma_directive_invisible(font_reset, color_reset + fed);
    lemma_directive_invisible(color_reset, fed);
    if ends_with_newline(text) {
        assert(fed[0] == '\n');
        assert(!opens_directive(fed));
        assert(fed.drop_first() =~= rest);
        assert(seq![fed[0]] =~= feed);
    } else {
        assert(fed =~= rest);
        assert(feed + visible_text(rest) =~= visible_text(rest));
    }
}

/// A text is as plain without its line terminator as with it.
proof fn lemma_plain_without_terminator(text: Seq<char>)
    requires
        is_plain_text(text),
    ensures
        is_plain_text(without_terminator(text)),
{
    let kept = without_terminator(text);
    assert forall|k: int| 0 <= k < kept.len() implies !opens_directive(
        #[trigger] kept.skip(k),
    ) by {
        let short = kept.skip(k);
        let long = text.skip(k);
        assert(!opens_directive(long));
        assert(forall|j: int| 0 <= j < short.len() ==> short[j] == long[j]);
    }
}

/// Of one run, followed by anything, its text remains, then what remains of
/// what follows.
proof fn lemma_run_visible(style: Style, text: Seq<char>, bg: bool, rest: Seq<char>)
    requires
        is_plain_text(text),
    ensures
        visible_text(encoded_run(style, text, bg) + rest) == with_line_feed(text) + visible_text(
            rest,
        ),
{
    let background = if bg {
        background_directive(style.background)
    } else {
        Seq::empty()
    };
    let font = font_directive(style.font_style);
    let color = color_directive(style.foreground);
    let kept = without_terminator(text);
    let closing = run_closing(text);
    let after_text = closing + rest;
    let after_color = kept + after_text;
    let after_font = color + after_color;
    let after_background = font + after_font;
    assert(encoded_run(style, text, bg) + rest =~= background + after_background);
    lemma_closing_visible(text, rest);
    reveal_strlit("\0font{default}");
    assert(after_text[0] == "\0font{default}"@[0]);
    lemma_plain_without_terminator(text);
    lemma_plain_text_visible(kept, after_text);
    lemma_color_invisible(style.foreground, after_color);
    lemma_font_invisible(style.font_style, after_font);
    if bg {
        lemma_background_invisible(style.background, after_background);
    } else {
        assert(background + after_background =~= after_background);
    }
    assert(kept + (with_line_feed(text).skip(kept.len() as int) + visible_text(rest))
        =~= with_line_feed(text) + visible_text(rest));
}

/// Taking the directives out of the encoded form of a line leaves the line:
/// the texts of its runs in order, each line terminator as a line feed.
pub proof fn lemma_visible_text_of_encoded(runs: Seq<(Style, Seq<char>)>, bg: bool)
    requires
        forall|i: int| 0 <= i < runs.len() ==> is_plain_text(#[trigger] runs[i].1),
    ensures
        visible_text(encoded(runs, bg)) == joined_lines(runs),
    decreases runs.len(),
{
    if runs.len() > 0 {
        let rest = runs.drop_first();
        assert forall|i: int| 0 <= i < rest.len() implies is_plain_text(#[trigger] rest[i].1) by {
            assert(rest[i] == runs[i + 1]);
        }
        lemma_visible_text_of_encoded(rest, bg);
        lemma_run_visible(runs[0].0, runs[0].1, bg, encoded(rest, bg));
    }
}

/// Where no run ends with a carriage return and a line feed, taking the
/// directives out of the encoded form of a line leaves the texts of its runs
/// exactly, line terminator and all.
pub proof fn lemma_text_survives(runs: Seq<(Style, Seq<char>)>, bg: bool)
    requires
        forall|i: int| 0 <= i < runs.len() ==> is_plain_text(#[trigger] runs[i].1),
        forall|i: int| 0 <= i < runs.len() ==> !ends_with_crlf(#[trigger] runs[i].1),
    ensures
        visible_text(encoded(runs, bg)) == joined_text(runs),
{
    lemma_visible_text_of_encoded(runs, bg);
    lemma_joined_lines_same(runs);
}

/// Without a carriage return before a final line feed, the lines joined are
/// the texts joined.
proof fn lemma_joined_lines_same(runs: Seq<(Style, Seq<char>)>)
    requires
        forall|i: int| 0 <= i < runs.len() ==> !ends_with_crlf(#[trigger] runs[i].1),
    ensures
        joined_lines(runs) == joined_text(runs),
    decreases runs.len(),
{
    if runs.len() > 0 {
        let rest = runs.drop_first();
        assert forall|i: int| 0 <= i < rest.len() implies !ends_with_crlf(
            #[trigger] rest[i].1,
        ) by {
            assert(rest[i] == runs[i + 1]);
        }
        lemma_joined_lines_same(rest);
        reveal_strlit("\n");
        assert(!ends_with_crlf(runs[0].1));
        assert(with_line_feed(runs[0].1) =~= runs[0].1);
    }
}

} // verus!
