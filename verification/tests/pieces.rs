use enscript_markup::markup::{
    append_background, append_color, append_font, append_run, has_trailing_newline,
};
use enscript_markup::{Color, FontStyle, Style};

fn sample() -> Style {
    Style {
        foreground: Color { r: 255, g: 255, b: 255, a: 255 },
        background: Color { r: 43, g: 48, b: 59, a: 255 },
        font_style: FontStyle::empty(),
    }
}

#[test]
fn background_directive_holds_three_integers() {
    let mut out = String::from("kept");
    append_background(&mut out, &Color { r: 0, g: 128, b: 255, a: 7 });
    assert_eq!(out, "kept\\bg{0;128;255;}");
}

#[test]
fn background_directive_ignores_alpha() {
    let mut with = String::new();
    append_background(&mut with, &Color { r: 1, g: 2, b: 3, a: 0 });
    let mut without = String::new();
    append_background(&mut without, &Color { r: 1, g: 2, b: 3, a: 255 });
    assert_eq!(with, without);
}

#[test]
fn color_directive_holds_three_fractions() {
    let mut out = String::from("kept");
    append_color(&mut out, &Color { r: 0, g: 128, b: 255, a: 7 });
    assert_eq!(out, "kept\0color{0 0.50196081 1}");
}

#[test]
fn font_directive_by_flags() {
    let expected = [
        (0u8, ""),
        (1, "\0font{Courier-Bold@6}"),
        (2, ""),
        (3, "\0font{Courier-Bold@6}"),
        (4, "\0font{Courier-Oblique@6}"),
        (5, "\0font{Courier-Oblique@6}"),
        (6, "\0font{Courier-Oblique@6}"),
        (7, "\0font{Courier-Oblique@6}"),
    ];
    for (bits, directive) in expected {
        let mut out = String::new();
        append_font(&mut out, &FontStyle { bits });
        assert_eq!(out, directive, "flags {}", bits);
    }
}

#[test]
fn font_directive_looks_at_the_three_flags_only() {
    let mut out = String::new();
    append_font(&mut out, &FontStyle { bits: 0xf8 });
    assert_eq!(out, "");
    append_font(&mut out, &FontStyle { bits: 0xf9 });
    assert_eq!(out, "\0font{Courier-Bold@6}");
}

#[test]
fn run_is_appended_to_what_is_there() {
    let mut out = String::from("before");
    append_run(&mut out, &sample(), "text\n", true);
    assert_eq!(
        out,
        "before\\bg{43;48;59;}\0color{1 1 1}text\0font{default}\0color{default}\n"
    );
    append_run(&mut out, &sample(), "more", false);
    assert_eq!(
        out,
        "before\\bg{43;48;59;}\0color{1 1 1}text\0font{default}\0color{default}\n\
         \0color{1 1 1}more\0font{default}\0color{default}"
    );
}

#[test]
fn trailing_newline_is_a_line_feed_at_the_end() {
    assert!(has_trailing_newline("a\n"));
    assert!(has_trailing_newline("a\r\n"));
    assert!(has_trailing_newline("\n"));
    assert!(!has_trailing_newline(""));
    assert!(!has_trailing_newline("a"));
    assert!(!has_trailing_newline("a\r"));
    assert!(!has_trailing_newline("\na"));
}
