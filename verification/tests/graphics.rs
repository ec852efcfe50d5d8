use helix_lib::graphics::{
    byte_from_hex, dupe_from_nibble, from_nibble, Color, MalformedHex, Modifier, Rect, RectExt, Style,
    UnderlineStyle, MODIFIER_ALL_BITS, RATATUI_UNDERLINED, RATATUI_UNDERLINE_STYLE_MASK,
};

fn ratatui_style_of(style: Style) -> ratatui::style::Style {
    let (add, sub) = style.ratatui_modifiers();
    let mut out = ratatui::style::Style::default();
    out.add_modifier = ratatui::style::Modifier::from_bits_retain(add);
    out.sub_modifier = ratatui::style::Modifier::from_bits_retain(sub);
    out
}

#[test]
fn test_rect_size_preservation() {
    for width in 0..256u16 {
        for height in 0..256u16 {
            let rect = Rect::new(0, 0, width, height);
            rect.area();
            assert_eq!(rect.width, width);
            assert_eq!(rect.height, height);
        }
    }

    let rect = Rect::new(0, 0, 300, 100);
    assert_eq!(rect.width, 300);
    assert_eq!(rect.height, 100);
}

#[test]
fn test_rect_chop_from_left() {
    let rect = Rect::new(0, 0, 20, 30);
    assert_eq!(Rect::new(10, 0, 10, 30), rect.clip_left(10));
    assert_eq!(
        Rect::new(20, 0, 0, 30),
        rect.clip_left(40),
        "x should be clamped to original width if new width is bigger"
    );
}

#[test]
fn test_rect_chop_from_right() {
    let rect = Rect::new(0, 0, 20, 30);
    assert_eq!(Rect::new(0, 0, 10, 30), rect.clip_right(10));
}

#[test]
fn test_rect_chop_from_top() {
    let rect = Rect::new(0, 0, 20, 30);
    assert_eq!(Rect::new(0, 10, 20, 20), rect.clip_top(10));
    assert_eq!(
        Rect::new(0, 30, 20, 0),
        rect.clip_top(50),
        "y should be clamped to original height if new height is bigger"
    );
}

#[test]
fn test_rect_chop_from_bottom() {
    let rect = Rect::new(0, 0, 20, 30);
    assert_eq!(Rect::new(0, 0, 20, 20), rect.clip_bottom(10));
}

fn styles() -> Vec<Style> {
    vec![
        Style::default(),
        Style::default().fg(Color::Yellow),
        Style::default().bg(Color::Yellow),
        Style::default().add_modifier(Modifier::bold()),
        Style::default().remove_modifier(Modifier::bold()),
        Style::default().add_modifier(Modifier::italic()),
        Style::default().remove_modifier(Modifier::italic()),
        Style::default().add_modifier(Modifier::italic().union(Modifier::bold())),
        Style::default().remove_modifier(Modifier::italic().union(Modifier::bold())),
    ]
}

#[test]
fn combined_patch_gives_same_result_as_individual_patch() {
    let styles = styles();
    for &a in &styles {
        for &b in &styles {
            for &c in &styles {
                for &d in &styles {
                    let combined = a.patch(b.patch(c.patch(d)));

                    assert_eq!(
                        Style::default().patch(a).patch(b).patch(c).patch(d),
                        Style::default().patch(combined)
                    );
                }
            }
        }
    }
}

#[test]
fn ratatui_style_preserves_underline_shapes() {
    let styles = [
        UnderlineStyle::Reset,
        UnderlineStyle::Line,
        UnderlineStyle::Curl,
        UnderlineStyle::Dotted,
        UnderlineStyle::Dashed,
        UnderlineStyle::DoubleLine,
    ];

    for underline_style in styles {
        let style = ratatui_style_of(Style::default().underline_style(underline_style));
        assert_eq!(
            UnderlineStyle::from_ratatui_modifier(style.add_modifier.bits()),
            underline_style
        );
    }

    assert!(
        (ratatui::style::Modifier::all()
            & ratatui::style::Modifier::from_bits_retain(RATATUI_UNDERLINE_STYLE_MASK))
        .is_empty(),
        "Ratatui assigned one of Helix's underline transport bits"
    );

    let mut cell = ratatui::buffer::Cell::default();
    cell.set_style(ratatui_style_of(Style::default().underline_style(UnderlineStyle::Curl)));
    cell.set_style(ratatui_style_of(Style::default().underline_style(UnderlineStyle::Dotted)));
    assert_eq!(
        UnderlineStyle::from_ratatui_modifier(cell.modifier.bits()),
        UnderlineStyle::Dotted
    );
    cell.set_style(ratatui_style_of(Style::default().underline_style(UnderlineStyle::Reset)));
    assert_eq!(
        UnderlineStyle::from_ratatui_modifier(cell.modifier.bits()),
        UnderlineStyle::Reset
    );
}

#[test]
fn sanity_nibble_lowercase() {
    for i in 0..0x10_u8 {
        let c = format!("{:x}", i);
        assert_eq!(c.len(), 1);
        assert_eq!(
            u8::from_str_radix(&c, 0x10).unwrap(),
            from_nibble(c.as_bytes()[0])
        );
    }
}

#[test]
fn sanity_nibble_uppercase() {
    for i in 0..0x10_u8 {
        let c = format!("{:X}", i);
        assert_eq!(c.len(), 1);
        assert_eq!(
            u8::from_str_radix(&c, 0x10).unwrap(),
            from_nibble(c.as_bytes()[0])
        );
    }
}

#[test]
fn sanity_nibble2() {
    assert_eq!(dupe_from_nibble(b'0'), Some(0));
    assert_eq!(dupe_from_nibble(b'1'), Some(0x11));
    assert_eq!(dupe_from_nibble(b'7'), Some(0x77));
    assert_eq!(dupe_from_nibble(b'a'), Some(0xaa));
    assert_eq!(dupe_from_nibble(b'f'), Some(0xff));
}

#[test]
fn invalid_nibble() {
    for c in *b"gGzZ+-" {
        assert_eq!(from_nibble(c), 0xff);
    }
}

#[test]
fn pair_endian() {
    assert_eq!(byte_from_hex(*b"00"), Some(0));
    assert_eq!(byte_from_hex(*b"fF"), Some(0xff));
    assert_eq!(byte_from_hex(*b"c3"), Some(0xc3));
}

#[test]
fn invalid_pair() {
    assert!(byte_from_hex(*b"+1").is_none());
    assert!(byte_from_hex(*b"-1").is_none());
    assert!(byte_from_hex(*b"Gg").is_none());
    assert!(byte_from_hex(*b"0x").is_none());
}

#[test]
fn hex_color_no_regress() {
    assert_eq!(Color::from_hex("#+a+b+c"), Err(MalformedHex::NotANibble));
    assert_eq!(Color::from_hex("#+0+1+2"), Err(MalformedHex::NotANibble));
}

#[test]
fn hex_color_sanity() {
    assert_eq!(Color::from_hex("#01fe3a"), Ok(Color::Rgb(0x01, 0xfe, 0x3a)));
    assert_eq!(Color::from_hex("#abc"), Ok(Color::Rgb(0xaa, 0xbb, 0xcc)));
}

#[test]
fn hex_color_invalid_len() {
    for h in [
        "#0",
        "#00",
        "#0000",
        "#00000",
        "#0000000",
        "#00000000",
        "#000000000",
        "#0000000000",
    ] {
        assert_eq!(Color::from_hex(h), Err(MalformedHex::LenOOB));
    }
}

// Further cases of the library's own.

#[test]
fn hex_color_doc_examples() {
    assert_eq!(Color::from_hex("#c0ffee"), Ok(Color::Rgb(192, 255, 238)));
    assert_eq!(Color::from_hex("#012"), Ok(Color::Rgb(0, 17, 34)));
}

#[test]
fn hex_color_without_hash() {
    assert_eq!(Color::from_hex("c0ffee"), Err(MalformedHex::NoHash));
    assert_eq!(Color::from_hex(""), Err(MalformedHex::NoHash));
}

#[test]
fn malformed_hex_messages() {
    assert_eq!(
        MalformedHex::NoHash.message(),
        "Malformed hex color code: Missing hash prefix"
    );
    assert_eq!(
        MalformedHex::LenOOB.message(),
        "Malformed hex color code: Must be 12 or 24 bit RGB"
    );
}

#[test]
fn modifier_bits_match_the_terminal_layer() {
    type R = ratatui::style::Modifier;
    assert_eq!(RATATUI_UNDERLINED, R::UNDERLINED.bits());
    assert_eq!(Modifier::bold().bits(), R::BOLD.bits());
    assert_eq!(Modifier::dim().bits(), R::DIM.bits());
    assert_eq!(Modifier::italic().bits(), R::ITALIC.bits());
    assert_eq!(Modifier::slow_blink().bits(), R::SLOW_BLINK.bits());
    assert_eq!(Modifier::rapid_blink().bits(), R::RAPID_BLINK.bits());
    assert_eq!(Modifier::reversed().bits(), R::REVERSED.bits());
    assert_eq!(Modifier::hidden().bits(), R::HIDDEN.bits());
    assert_eq!(Modifier::crossed_out().bits(), R::CROSSED_OUT.bits());
    assert_eq!(MODIFIER_ALL_BITS, R::all().bits() & !R::UNDERLINED.bits());
}

#[test]
fn modifier_and_underline_names() {
    assert_eq!(Modifier::from_name("bold"), Ok(Modifier::bold()));
    assert_eq!(Modifier::from_name("crossed_out"), Ok(Modifier::crossed_out()));
    assert_eq!(Modifier::from_name("underlined"), Err("Invalid modifier"));
    assert_eq!(UnderlineStyle::from_name("curl"), Ok(UnderlineStyle::Curl));
    assert_eq!(UnderlineStyle::from_name("double_line"), Ok(UnderlineStyle::DoubleLine));
    assert_eq!(UnderlineStyle::from_name("wavy"), Err("Invalid underline style"));
}

#[test]
fn style_doc_examples() {
    let style = Style::default().fg(Color::Blue);
    let diff = Style::default().fg(Color::Red);
    assert_eq!(style.patch(diff), Style::default().fg(Color::Red));

    let style = Style::default().add_modifier(Modifier::bold());
    let patched = style.patch(Style::default().add_modifier(Modifier::italic()));
    assert_eq!(patched.add_modifier, Modifier::bold().union(Modifier::italic()));
    assert_eq!(patched.sub_modifier, Modifier::empty());

    let style = Style::default().add_modifier(Modifier::bold().union(Modifier::italic()));
    let patched = style.patch(Style::default().remove_modifier(Modifier::italic()));
    assert_eq!(patched.add_modifier, Modifier::bold());
    assert_eq!(patched.sub_modifier, Modifier::italic());

    let reset = Style::reset();
    assert_eq!(reset.fg, Some(Color::Reset));
    assert_eq!(reset.sub_modifier, Modifier::all());
}

#[test]
fn rect_edges_and_resizing() {
    let rect = Rect::new(65530, 3, 20, 4);
    assert_eq!(rect.width, 5);
    assert_eq!(rect.right(), 65535);
    assert_eq!(rect.bottom(), 7);
    assert_eq!(Rect::new(1, 2, 3, 4).with_height(9), Rect::new(1, 2, 3, 9));
    assert_eq!(Rect::new(1, 2, 3, 4).with_width(9), Rect::new(1, 2, 9, 4));
    assert_eq!(Rect::new(1, 2, 3, 4).area(), 12);
}

#[test]
fn names_parse_through_from_str() {
    assert_eq!("italic".parse::<Modifier>(), Ok(Modifier::italic()));
    assert_eq!("dashed".parse::<UnderlineStyle>(), Ok(UnderlineStyle::Dashed));
    assert!("nope".parse::<UnderlineStyle>().is_err());
}
