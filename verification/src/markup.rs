//! The directives of the markup, and the encoder that writes runs with them.
//!
//! | directive   | text                                                     |
//! |-------------|----------------------------------------------------------|
//! | background  | `\bg{R;G;B;}`, channels as integers                      |
//! | font select | NUL, then `font{Courier-Oblique@6}` or `font{Courier-Bold@6}` |
//! | font reset  | NUL, then `font{default}`                                |
//! | colour      | NUL, then `color{R G B}`, channels as fractions of one   |
//! | colour reset| NUL, then `color{default}`                               |

use vstd::prelude::*;
use vstd::string::*;
use crate::channel::{channel_string, channel_text, lemma_channel_text_chars};
use crate::digits::{decimal, decimal_string, is_digit, lemma_decimal_all_digits};
use crate::occurrences::starts_with;
use crate::style::{Color, FontStyle, Style};

verus! {

/// Whether `text` ends with a line feed.
pub open spec fn ends_with_newline(text: Seq<char>) -> bool {
    text.len() > 0 && text.last() == '\n'
}

/// `text` without the line terminator at its end: a carriage return with a
/// line feed where it ends with both, else a line feed. Only one terminator
/// is taken off.
pub open spec fn without_terminator(text: Seq<char>) -> Seq<char> {
    if text.len() >= 2 && text[text.len() - 2] == '\r' && text.last() == '\n' {
        text.take(text.len() - 2)
    } else if ends_with_newline(text) {
        text.drop_last()
    } else {
        text
    }
}

/// The directive that sets the background to the colour `c`.
pub open spec fn background_directive(c: Color) -> Seq<char> {
    "\\bg{"@ + decimal(c.r as nat) + ";"@ + decimal(c.g as nat) + ";"@ + decimal(c.b as nat)
        + ";}"@
}

/// The directive that selects the font for the flags `f`: the oblique font
/// where italic is among them, else the bold font where bold is, else
/// nothing. Underline selects nothing.
pub open spec fn font_directive(f: FontStyle) -> Seq<char> {
    if f.has(FontStyle::spec_italic()) {
        "\0font{Courier-Oblique@6}"@
    } else if f.has(FontStyle::spec_bold()) {
        "\0font{Courier-Bold@6}"@
    } else {
        Seq::empty()
    }
}

/// The directive that sets the text colour to `c`.
pub open spec fn color_directive(c: Color) -> Seq<char> {
    "\0color{"@ + channel_text(c.r) + " "@ + channel_text(c.g) + " "@ + channel_text(c.b) + "}"@
}

/// What is written before the text of a run.
pub open spec fn run_opening(style: Style, bg: bool) -> Seq<char> {
    (if bg {
        background_directive(style.background)
    } else {
        Seq::empty()
    }) + font_directive(style.font_style) + color_directive(style.foreground)
}

/// The two directives that reset the font and the colour.
pub open spec fn resets() -> Seq<char> {
    "\0font{default}"@ + "\0color{default}"@
}

/// What is written after the text of a run: the two resets, then the line
/// feed where the run had a line terminator.
pub open spec fn run_closing(text: Seq<char>) -> Seq<char> {
    resets() + (if ends_with_newline(text) {
        "\n"@
    } else {
        Seq::empty()
    })
}

/// One run in markup.
pub open spec fn encoded_run(style: Style, text: Seq<char>, bg: bool) -> Seq<char> {
    run_opening(style, bg) + without_terminator(text) + run_closing(text)
}

/// A sequence of runs in markup: each run in turn, with nothing between them.
pub open spec fn encoded(runs: Seq<(Style, Seq<char>)>, bg: bool) -> Seq<char>
    decreases runs.len(),
{
    if runs.len() == 0 {
        Seq::empty()
    } else {
        encoded_run(runs[0].0, runs[0].1, bg) + encoded(runs.drop_first(), bg)
    }
}

/// The runs of a slice, each text as the characters it holds.
pub open spec fn run_views(v: Seq<(Style, &str)>) -> Seq<(Style, Seq<char>)> {
    Seq::new(v.len(), |i: int| (v[i].0, v[i].1@))
}

/// Runs are encoded each by itself: the markup of two sequences of runs, one
/// after the other, is the markup of the first and then that of the second.
pub proof fn lemma_encoded_concat(
    first: Seq<(Style, Seq<char>)>,
    second: Seq<(Style, Seq<char>)>,
    bg: bool,
)
    ensures
        encoded(first + second, bg) == encoded(first, bg) + encoded(second, bg),
    decreases first.len(),
{
    if first.len() == 0 {
        assert(first + second =~= second);
        assert(encoded(first, bg) + encoded(second, bg) =~= encoded(second, bg));
    } else {
        let whole = first + second;
        let head = encoded_run(first[0].0, first[0].1, bg);
        assert(whole[0] == first[0]);
        assert(whole.drop_first() =~= first.drop_first() + second);
        lemma_encoded_concat(first.drop_first(), second, bg);
        assert(head + (encoded(first.drop_first(), bg) + encoded(second, bg)) =~= (head + encoded(
            first.drop_first(),
            bg,
        )) + encoded(second, bg));
    }
}

/// Encoding the runs up to and with the one at `i` is encoding those before
/// it and then that one.
pub proof fn lemma_encoded_step(runs: Seq<(Style, Seq<char>)>, bg: bool, i: int)
    requires
        0 <= i < runs.len(),
    ensures
        encoded(runs.take(i + 1), bg) == encoded(runs.take(i), bg) + encoded_run(
            runs[i].0,
            runs[i].1,
            bg,
        ),
{
    let one = seq![runs[i]];
    assert(runs.take(i + 1) =~= runs.take(i) + one);
    lemma_encoded_concat(runs.take(i), one, bg);
    assert(encoded(one.drop_first(), bg) =~= Seq::empty());
    assert(encoded(one, bg) =~= encoded_run(runs[i].0, runs[i].1, bg));
}

/// Whether `c` is one of the characters that the encoder writes between the
/// head of a directive and its closing brace, to give a colour: a digit, a
/// point, a semicolon or a space.
pub open spec fn is_argument_char(c: char) -> bool {
    is_digit(c) || c == '.' || c == ';' || c == ' '
}

/// A background directive is its head, then argument characters, then one
/// closing brace.
pub proof fn lemma_background_directive_shape(c: Color)
    ensures
        starts_with(background_directive(c), "\\bg{"@),
        background_directive(c).len() > 4,
        background_directive(c).last() == '}',
        forall|i: int|
            4 <= i < background_directive(c).len() - 1 ==> is_argument_char(
                #[trigger] background_directive(c)[i],
            ),
{
    reveal_strlit("\\bg{");
    reveal_strlit(";");
    reveal_strlit(";}");
    lemma_decimal_all_digits(c.r as nat);
    lemma_decimal_all_digits(c.g as nat);
    lemma_decimal_all_digits(c.b as nat);
    let r = decimal(c.r as nat);
    let g = decimal(c.g as nat);
    let b = decimal(c.b as nat);
    let d = background_directive(c);
    assert forall|i: int| 4 <= i < d.len() - 1 implies is_argument_char(#[trigger] d[i]) by {
        if i < 4 + r.len() {
            assert(d[i] == r[i - 4]);
        } else if i < 5 + r.len() {
        } else if i < 5 + r.len() + g.len() {
            assert(d[i] == g[i - 5 - r.len()]);
        } else if i < 6 + r.len() + g.len() {
        } else if i < 6 + r.len() + g.len() + b.len() {
            assert(d[i] == b[i - 6 - r.len() - g.len()]);
        } else {
        }
    }
}

/// A colour directive is its head, then argument characters, then one
/// closing brace.
pub proof fn lemma_color_directive_shape(c: Color)
    ensures
        starts_with(color_directive(c), "\0color{"@),
        color_directive(c).len() > 7,
        color_directive(c).last() == '}',
        forall|i: int|
            7 <= i < color_directive(c).len() - 1 ==> is_argument_char(
                #[trigger] color_directive(c)[i],
            ),
{
    reveal_strlit("\0color{");
    reveal_strlit(" ");
    reveal_strlit("}");
    lemma_channel_text_chars(c.r);
    lemma_channel_text_chars(c.g);
    lemma_channel_text_chars(c.b);
    let r = channel_text(c.r);
    let g = channel_text(c.g);
    let b = channel_text(c.b);
    let d = color_directive(c);
    assert forall|i: int| 7 <= i < d.len() - 1 implies is_argument_char(#[trigger] d[i]) by {
        if i < 7 + r.len() {
            assert(d[i] == r[i - 7]);
        } else if i < 8 + r.len() {
        } else if i < 8 + r.len() + g.len() {
            assert(d[i] == g[i - 8 - r.len()]);
        } else if i < 9 + r.len() + g.len() {
        } else if i < 9 + r.len() + g.len() + b.len() {
            assert(d[i] == b[i - 9 - r.len() - g.len()]);
        } else {
        }
    }
}

/// `input` without the line terminator at its end.
pub fn strip_trailing_newline(input: &str) -> (r: &str)
    ensures
        r@ == without_terminator(input@),
{
    let n = input.unicode_len();
    if n >= 2 && input.get_char(n - 1) == '\n' && input.get_char(n - 2) == '\r' {
        input.substring_char(0, n - 2)
    } else if n >= 1 && input.get_char(n - 1) == '\n' {
        input.substring_char(0, n - 1)
    } else {
        input
    }
}

/// Whether `text` ends with a line feed.
pub fn has_trailing_newline(text: &str) -> (r: bool)
    ensures
        r == ends_with_newline(text@),
{
    let n = text.unicode_len();
    n >= 1 && text.get_char(n - 1) == '\n'
}

/// Appends the directive that sets the background to the colour `c`.
pub fn append_background(out: &mut String, c: &Color)
    ensures
        final(out)@ == old(out)@ + background_directive(*c),
{
    let ghost start = out@;
    let r = decimal_string(c.r);
    let g = decimal_string(c.g);
    let b = decimal_string(c.b);
    out.append("\\bg{");
    out.append(r.as_str());
    out.append(";");
    out.append(g.as_str());
    out.append(";");
    out.append(b.as_str());
    out.append(";}");
    assert(out@ =~= start + background_directive(*c));
}

/// Appends the directive that selects the font for the flags `f`, if any.
pub fn append_font(out: &mut String, f: &FontStyle)
    ensures
        final(out)@ == old(out)@ + font_directive(*f),
{
    let ghost start = out@;
    if f.contains(FontStyle::italic()) {
        out.append("\0font{Courier-Oblique@6}");
    } else if f.contains(FontStyle::bold()) {
        out.append("\0font{Courier-Bold@6}");
    }
    assert(out@ =~= start + font_directive(*f));
}

/// Appends the directive that sets the text colour to `c`.
pub fn append_color(out: &mut String, c: &Color)
    ensures
        final(out)@ == old(out)@ + color_directive(*c),
{
    let ghost start = out@;
    let r = channel_string(c.r);
    let g = channel_string(c.g);
    let b = channel_string(c.b);
    out.append("\0color{");
    out.append(r.as_str());
    out.append(" ");
    out.append(g.as_str());
    out.append(" ");
    out.append(b.as_str());
    out.append("}");
    assert(out@ =~= start + color_directive(*c));
}

/// Appends what follows the text of a run.
fn append_closing(out: &mut String, text: &str)
    ensures
        final(out)@ == old(out)@ + run_closing(text@),
{
    let ghost start = out@;
    out.append("\0font{default}");
    out.append("\0color{default}");
    if has_trailing_newline(text) {
        out.append("\n");
    }
    assert(out@ =~= start + run_closing(text@));
}

/// Appends one run in markup to `out`.
pub fn append_run(out: &mut String, style: &Style, text: &str, bg: bool)
    ensures
        final(out)@ == old(out)@ + encoded_run(*style, text@, bg),
{
    let ghost start = out@;
    if bg {
        append_background(out, &style.background);
    }
    append_font(out, &style.font_style);
    append_color(out, &style.foreground);
    assert(out@ =~= start + run_opening(*style, bg));
    out.append(strip_trailing_newline(text));
    append_closing(out, text);
    assert(out@ =~= start + encoded_run(*style, text@, bg));
}

/// Encodes the runs of one line in markup.
///
/// Each run is written by itself: the background directive where `bg` asks
/// for it, the font directive that its flags select, the colour directive,
/// its text without the line terminator, the two resets, and a line feed
/// where the text had a terminator. Nothing is written between runs, so no
/// runs give the empty string. Any sequence of runs is accepted: a
/// terminator on a run that is not the last is treated like one on the last.
pub fn as_enscript_escaped(v: &[(Style, &str)], bg: bool) -> (s: String)
    ensures
        s@ == encoded(run_views(v@), bg),
        v@.len() == 0 ==> s@.len() == 0,
{
    let mut s = String::new();
    let ghost runs = run_views(v@);
    let mut i: usize = 0;
    while i < v.len()
        invariant
            i <= v.len(),
            runs == run_views(v@),
            s@ == encoded(runs.take(i as int), bg),
        decreases v.len() - i,
    {
        let style = &v[i].0;
        let text = v[i].1;
        append_run(&mut s, style, text, bg);
        proof {
            lemma_encoded_step(runs, bg, i as int);
        }
        i = i + 1;
    }
    assert(runs.take(i as int) =~= runs);
    s
}

} // verus!
