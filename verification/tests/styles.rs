use enscript_markup::{as_enscript_escaped, Color, FontStyle, Style};

#[test]
fn flags_are_single_bits() {
    assert_eq!(FontStyle::empty().bits, 0);
    assert_eq!(FontStyle::bold().bits, 1);
    assert_eq!(FontStyle::underline().bits, 2);
    assert_eq!(FontStyle::italic().bits, 4);
}

#[test]
fn flags_agree_with_the_highlighter() {
    assert_eq!(FontStyle::empty().bits, syntect::highlighting::FontStyle::empty().bits());
    assert_eq!(FontStyle::bold().bits, syntect::highlighting::FontStyle::BOLD.bits());
    assert_eq!(FontStyle::underline().bits, syntect::highlighting::FontStyle::UNDERLINE.bits());
    assert_eq!(FontStyle::italic().bits, syntect::highlighting::FontStyle::ITALIC.bits());
}

#[test]
fn contains_agrees_with_the_highlighter() {
    for have in 0..8u8 {
        for want in 0..8u8 {
            let theirs = syntect::highlighting::FontStyle::from_bits(have)
                .unwrap()
                .contains(syntect::highlighting::FontStyle::from_bits(want).unwrap());
            let ours = FontStyle { bits: have }.contains(FontStyle { bits: want });
            assert_eq!(ours, theirs, "{} {}", have, want);
        }
    }
}

#[test]
fn contains_asks_for_every_flag() {
    let both = FontStyle::bold().union(FontStyle::italic());
    assert_eq!(both.bits, 5);
    assert!(both.contains(FontStyle::bold()));
    assert!(both.contains(FontStyle::italic()));
    assert!(both.contains(both));
    assert!(both.contains(FontStyle::empty()));
    assert!(!both.contains(FontStyle::underline()));
    assert!(!FontStyle::bold().contains(both));
    assert!(!FontStyle::empty().contains(FontStyle::bold()));
}

#[test]
fn a_style_of_the_highlighter_encodes_by_its_fields() {
    let theirs = syntect::highlighting::Style {
        foreground: syntect::highlighting::Color { r: 255, g: 128, b: 0, a: 255 },
        background: syntect::highlighting::Color { r: 1, g: 2, b: 3, a: 255 },
        font_style: syntect::highlighting::FontStyle::BOLD
            | syntect::highlighting::FontStyle::ITALIC,
    };
    let ours = Style {
        foreground: Color {
            r: theirs.foreground.r,
            g: theirs.foreground.g,
            b: theirs.foreground.b,
            a: theirs.foreground.a,
        },
        background: Color {
            r: theirs.background.r,
            g: theirs.background.g,
            b: theirs.background.b,
            a: theirs.background.a,
        },
        font_style: FontStyle { bits: theirs.font_style.bits() },
    };
    assert_eq!(
        as_enscript_escaped(&[(ours, "x")], true),
        "\\bg{1;2;3;}\0font{Courier-Oblique@6}\0color{1 0.50196081 0}x\
         \0font{default}\0color{default}"
    );
}

#[test]
fn styles_compare_by_their_fields() {
    let a = Style {
        foreground: Color { r: 1, g: 2, b: 3, a: 4 },
        background: Color { r: 5, g: 6, b: 7, a: 8 },
        font_style: FontStyle::bold(),
    };
    let mut b = a;
    assert_eq!(a, b);
    b.font_style = FontStyle::italic();
    assert_ne!(a, b);
}
