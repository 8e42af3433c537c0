use enscript_markup::{as_enscript_escaped, strip_trailing_newline, Color, FontStyle, Style};

const RESETS: &str = "\0font{default}\0color{default}";

fn rgb(r: u8, g: u8, b: u8) -> Color {
    Color { r, g, b, a: 255 }
}

fn styled(foreground: Color, font_style: FontStyle) -> Style {
    Style { foreground, background: rgb(16, 32, 48), font_style }
}

fn plain() -> Style {
    styled(rgb(0, 0, 0), FontStyle::empty())
}

/// What a reader of the markup keeps as text: everything but the stretches
/// from the head of a directive to the next closing brace.
fn visible_text(markup: &str) -> String {
    let heads = ["\\bg{", "\0font{", "\0color{"];
    let mut text = String::new();
    let mut rest = markup;
    while let Some(c) = rest.chars().next() {
        if heads.iter().any(|head| rest.starts_with(head)) {
            rest = match rest.find('}') {
                Some(at) => &rest[at + 1..],
                None => "",
            };
        } else {
            text.push(c);
            rest = &rest[c.len_utf8()..];
        }
    }
    text
}

#[test]
fn empty_input_gives_empty_string() {
    assert_eq!(as_enscript_escaped(&[], false), "");
    assert_eq!(as_enscript_escaped(&[], true), "");
}

#[test]
fn end_to_end_two_runs() {
    let bold_red = styled(rgb(255, 0, 0), FontStyle::bold());
    let out = as_enscript_escaped(&[(bold_red, "fn "), (plain(), "main() {\n")], false);
    assert_eq!(
        out,
        "\0font{Courier-Bold@6}\0color{1 0 0}fn \0font{default}\0color{default}\
         \0color{0 0 0}main() {\0font{default}\0color{default}\n"
    );
}

#[test]
fn color_is_normalized_to_single_precision() {
    let out = as_enscript_escaped(&[(styled(rgb(255, 128, 0), FontStyle::empty()), "x")], false);
    assert_eq!(out, "\0color{1 0.50196081 0}x\0font{default}\0color{default}");
}

#[test]
fn one_run_with_everything() {
    let style = Style {
        foreground: rgb(51, 102, 204),
        background: rgb(0, 9, 255),
        font_style: FontStyle::italic(),
    };
    let out = as_enscript_escaped(&[(style, "let x\r\n")], true);
    assert_eq!(
        out,
        "\\bg{0;9;255;}\0font{Courier-Oblique@6}\0color{0.2 0.40000001 0.80000001}let x\
         \0font{default}\0color{default}\n"
    );
}

#[test]
fn background_is_written_for_every_run_when_asked() {
    let runs = [(plain(), "a"), (styled(rgb(1, 2, 3), FontStyle::bold()), "b"), (plain(), "c\n")];
    let with = as_enscript_escaped(&runs, true);
    assert_eq!(with.matches("\\bg{").count(), 3);
    assert_eq!(with.matches("\\bg{16;32;48;}").count(), 3);
    let without = as_enscript_escaped(&runs, false);
    assert_eq!(without.matches("\\bg{").count(), 0);
    assert!(!without.contains('\\'));
}

#[test]
fn background_is_repeated_when_it_does_not_change() {
    let out = as_enscript_escaped(&[(plain(), "a"), (plain(), "b")], true);
    assert_eq!(
        out,
        "\\bg{16;32;48;}\0color{0 0 0}a\0font{default}\0color{default}\
         \\bg{16;32;48;}\0color{0 0 0}b\0font{default}\0color{default}"
    );
}

#[test]
fn text_that_holds_a_directive_is_not_counted_as_written() {
    let out = as_enscript_escaped(&[(plain(), "\\bg{1;2;3;}")], false);
    assert_eq!(out.matches("\\bg{").count(), 1);
    let out = as_enscript_escaped(&[(plain(), "\\bg{1;2;3;}")], true);
    assert_eq!(out.matches("\\bg{").count(), 2);
}

#[test]
fn italic_goes_before_bold() {
    let both = FontStyle::bold().union(FontStyle::italic());
    let out = as_enscript_escaped(&[(styled(rgb(0, 0, 0), both), "x")], false);
    assert!(out.contains("\0font{Courier-Oblique@6}"));
    assert!(!out.contains("\0font{Courier-Bold@6}"));
    assert_eq!(out, "\0font{Courier-Oblique@6}\0color{0 0 0}x\0font{default}\0color{default}");
    let all = both.union(FontStyle::underline());
    assert_eq!(as_enscript_escaped(&[(styled(rgb(0, 0, 0), all), "x")], false), out);
}

#[test]
fn bold_alone_selects_the_bold_font() {
    let out = as_enscript_escaped(&[(styled(rgb(0, 0, 0), FontStyle::bold()), "x")], false);
    assert_eq!(out, "\0font{Courier-Bold@6}\0color{0 0 0}x\0font{default}\0color{default}");
    let underlined = FontStyle::bold().union(FontStyle::underline());
    assert_eq!(as_enscript_escaped(&[(styled(rgb(0, 0, 0), underlined), "x")], false), out);
}

#[test]
fn no_font_is_selected_without_italic_or_bold() {
    for font_style in [FontStyle::empty(), FontStyle::underline()] {
        let out = as_enscript_escaped(&[(styled(rgb(0, 0, 0), font_style), "x")], true);
        assert!(!out.contains("\0font{Courier"));
        assert_eq!(out.matches("\0font{").count(), 1);
        assert_eq!(out, "\\bg{16;32;48;}\0color{0 0 0}x\0font{default}\0color{default}");
    }
}

#[test]
fn line_feed_comes_after_the_resets() {
    let out = as_enscript_escaped(&[(plain(), "a"), (plain(), "b\n")], false);
    assert!(out.ends_with("b\0font{default}\0color{default}\n"));
    assert_eq!(out.matches('\n').count(), 1);
    let out = as_enscript_escaped(&[(plain(), "a"), (plain(), "b")], false);
    assert!(out.ends_with(RESETS));
    assert_eq!(out.matches('\n').count(), 0);
}

#[test]
fn carriage_return_and_line_feed_become_one_line_feed() {
    let out = as_enscript_escaped(&[(plain(), "b\r\n")], false);
    assert_eq!(out, "\0color{0 0 0}b\0font{default}\0color{default}\n");
    assert!(!out.contains('\r'));
}

#[test]
fn only_one_terminator_is_moved() {
    let out = as_enscript_escaped(&[(plain(), "b\n\n")], false);
    assert_eq!(out, "\0color{0 0 0}b\n\0font{default}\0color{default}\n");
    let out = as_enscript_escaped(&[(plain(), "\n")], false);
    assert_eq!(out, "\0color{0 0 0}\0font{default}\0color{default}\n");
}

#[test]
fn terminator_on_an_inner_run_is_treated_alike() {
    let out = as_enscript_escaped(&[(plain(), "a\n"), (plain(), "b")], false);
    assert_eq!(
        out,
        "\0color{0 0 0}a\0font{default}\0color{default}\n\
         \0color{0 0 0}b\0font{default}\0color{default}"
    );
}

#[test]
fn empty_text_still_gets_its_directives() {
    let out = as_enscript_escaped(&[(plain(), "")], false);
    assert_eq!(out, "\0color{0 0 0}\0font{default}\0color{default}");
}

#[test]
fn text_beyond_ascii_is_kept() {
    let out = as_enscript_escaped(&[(plain(), "// héllo → wörld ✓\n")], false);
    assert_eq!(out, "\0color{0 0 0}// héllo → wörld ✓\0font{default}\0color{default}\n");
    let out = as_enscript_escaped(&[(plain(), "日本語\r\n")], false);
    assert_eq!(out, "\0color{0 0 0}日本語\0font{default}\0color{default}\n");
}

#[test]
fn the_line_is_what_remains_without_the_directives() {
    let keyword = styled(rgb(180, 142, 173), FontStyle::bold());
    let comment = styled(rgb(101, 115, 126), FontStyle::italic());
    let runs = [
        (keyword, "fn"),
        (plain(), " main() { "),
        (comment, "// {braces} and \\ backslash"),
        (plain(), "\n"),
    ];
    for bg in [false, true] {
        let out = as_enscript_escaped(&runs, bg);
        assert_eq!(visible_text(&out), "fn main() { // {braces} and \\ backslash\n");
    }
}

#[test]
fn what_remains_of_a_line_with_carriage_return_ends_with_a_line_feed() {
    let out = as_enscript_escaped(&[(plain(), "a"), (plain(), "b\r\n")], true);
    assert_eq!(visible_text(&out), "ab\n");
}

#[test]
fn strip_takes_one_terminator() {
    assert_eq!(strip_trailing_newline("abc\r\n"), "abc");
    assert_eq!(strip_trailing_newline("abc\n"), "abc");
    assert_eq!(strip_trailing_newline("abc"), "abc");
    assert_eq!(strip_trailing_newline("abc\n\n"), "abc\n");
    assert_eq!(strip_trailing_newline("abc\r\n\r\n"), "abc\r\n");
    assert_eq!(strip_trailing_newline("abc\n\r\n"), "abc\n");
    assert_eq!(strip_trailing_newline("abc\r"), "abc\r");
    assert_eq!(strip_trailing_newline("abc\n\r"), "abc\n\r");
    assert_eq!(strip_trailing_newline("\r\n"), "");
    assert_eq!(strip_trailing_newline("\n"), "");
    assert_eq!(strip_trailing_newline(""), "");
    assert_eq!(strip_trailing_newline("é\n"), "é");
}
