use honeybee::layout::{
    block_height, block_top, extra_space, fragment_left, fragment_width, line_baselines,
    spacing_avg, span_lefts, LineMetrics,
    SpanMetrics,
};
use honeybee::multi::{
    parse_tag, parse_values, Color, ColorScheme, LineJustification, PageJustification, Rectangle,
    SyntaxError, Value,
};
use honeybee::raster::Raster;
use honeybee::render::{FontMetrics, PageSplitter, RenderState};

const FONT: FontMetrics =
    FontMetrics { glyph_width: 5, glyph_height: 7, char_spacing: 0, line_spacing: 0 };

fn full_matrix() -> RenderState {
    RenderState::new(
        ColorScheme::Monochrome1Bit,
        Color::Legacy(1),
        Color::Legacy(0),
        20,
        0,
        Rectangle::new(1, 1, 60, 30),
        PageJustification::Top,
        LineJustification::Left,
        0,
        0,
        (1, None),
    )
}

fn char_matrix() -> RenderState {
    RenderState::new(
        ColorScheme::Monochrome1Bit,
        Color::Legacy(1),
        Color::Legacy(0),
        20,
        0,
        Rectangle::new(1, 1, 100, 21),
        PageJustification::Top,
        LineJustification::Left,
        5,
        7,
        (1, None),
    )
}

fn count_pages(rs: RenderState, ms: &str) -> usize {
    let mut pages = PageSplitter::new(rs, ms);
    let mut n = 0;
    while let Some(p) = pages.next() {
        assert!(p.is_ok());
        n += 1;
    }
    n
}

#[test]
fn pages_are_breaks_plus_one() {
    let rs = full_matrix();
    assert_eq!(count_pages(rs, "a[np]b[NP]c[nP]"), 4);
    assert_eq!(count_pages(rs, "[np][np]"), 3);
    let mut s = PageSplitter::new(rs, "a[np]b[np]");
    assert_eq!(s.pages().unwrap().len(), 3);
}

#[test]
fn empty_message_is_default_page() {
    let rs = full_matrix();
    let mut pages = PageSplitter::new(rs, "");
    let p = pages.next().unwrap().unwrap();
    assert!(p.render_state == rs);
    assert!(p.values.is_empty());
    assert!(pages.next().is_none());
}

#[test]
fn page_values_exclude_break() {
    let rs = full_matrix();
    let mut pages = PageSplitter::new(rs, "ab[cf3]c[np]d");
    let p = pages.next().unwrap().unwrap();
    assert_eq!(p.values.len(), 3);
    assert!(p.values[1] == Value::ColorForeground(Some(Color::Legacy(3))));
    let p = pages.next().unwrap().unwrap();
    assert!(p.values == vec![Value::Text("d".to_string())]);
    assert!(p.render_state.color_foreground == Color::Legacy(3));
}

#[test]
fn page_scoped_tag_after_text() {
    let rs = full_matrix();
    let mut pages = PageSplitter::new(rs, "abc[pb5][pt30o5][np]x[np][pb][pt]y");
    let p = pages.next().unwrap().unwrap();
    assert!(p.render_state.page_background == Color::Legacy(5));
    assert_eq!(p.render_state.page_on_time_ds, 30);
    assert_eq!(p.render_state.page_off_time_ds, 5);
    let p = pages.next().unwrap().unwrap();
    assert!(p.render_state.page_background == Color::Legacy(5));
    assert_eq!(p.render_state.page_on_time_ds, 30);
    let p = pages.next().unwrap().unwrap();
    assert!(p.render_state.page_background == Color::Legacy(0));
    assert_eq!(p.render_state.page_on_time_ds, 20);
    assert_eq!(p.render_state.page_off_time_ds, 0);
}

#[test]
fn rectangle_and_line_spacing_reset_each_page() {
    let rs = full_matrix();
    let mut pages = PageSplitter::new(rs, "[tr1,1,10,10][nl4][np]x");
    let _ = pages.next().unwrap().unwrap();
    assert!(pages.render_state.text_rectangle == Rectangle::new(1, 1, 10, 10));
    let p = pages.next().unwrap().unwrap();
    assert!(p.render_state.text_rectangle == Rectangle::new(1, 1, 60, 30));
    assert!(p.render_state.line_spacing == None);
}

#[test]
fn spacing_on_full_matrix_only() {
    let mut pages = PageSplitter::new(full_matrix(), "[sc2][nl4]");
    assert!(pages.next().unwrap().is_ok());
    let mut pages = PageSplitter::new(char_matrix(), "[sc2]");
    match pages.next() {
        Some(Err(SyntaxError::UnsupportedTag(t))) => assert_eq!(t, "sc"),
        _ => panic!("character spacing accepted on a character matrix"),
    }
    assert!(pages.next().is_none());
    let mut pages = PageSplitter::new(char_matrix(), "[nl4]");
    assert!(matches!(pages.next(), Some(Err(SyntaxError::UnsupportedTagValue))));
}

#[test]
fn aligned_rectangle_becomes_active() {
    let rs = char_matrix();
    let mut pages = PageSplitter::new(rs, "[tr6,8,50,14]");
    assert!(pages.next().unwrap().is_ok());
    assert!(pages.render_state.text_rectangle == Rectangle::new(6, 8, 50, 14));
    let mut pages = PageSplitter::new(rs, "[tr2,1,50,14]");
    assert!(matches!(pages.next(), Some(Err(SyntaxError::UnsupportedTagValue))));
    let mut pages = PageSplitter::new(rs, "[tr1,1,105,14]");
    assert!(matches!(pages.next(), Some(Err(SyntaxError::UnsupportedTagValue))));
}

#[test]
fn update_applies_one_value() {
    let d = full_matrix();
    let mut s = d;
    assert!(s.update(&d, &Value::JustificationLine(Some(LineJustification::Center))).is_ok());
    assert!(s.just_line == LineJustification::Center);
    assert!(s.update(&d, &Value::JustificationLine(None)).is_ok());
    assert!(s.just_line == LineJustification::Left);
    assert!(s.update(&d, &Value::Font(Some((2, Some(7))))).is_ok());
    assert!(s.font == (2, Some(7)));
    assert!(s.update(&d, &Value::Font(None)).is_ok());
    assert!(s.font == (1, None));
    let before = s;
    let r = s.update(&d, &Value::Unsupported("fl".to_string()));
    assert!(r == Err(SyntaxError::UnsupportedTag("fl".to_string())));
    assert!(s == before);
    let r = s.update(&d, &Value::NewPage);
    assert!(r == Err(SyntaxError::UnsupportedTag("np".to_string())));
}

#[test]
fn unsupported_tag_is_rejected() {
    let mut pages = PageSplitter::new(full_matrix(), "a[np][fl]b");
    assert!(pages.next().unwrap().is_ok());
    match pages.next() {
        Some(Err(SyntaxError::UnsupportedTag(t))) => assert_eq!(t, "fl"),
        _ => panic!("flashing accepted"),
    }
    assert!(pages.next().is_none());
}

#[test]
fn malformed_message_stops_at_fault() {
    let mut pages = PageSplitter::new(full_matrix(), "a[np]b[np");
    assert!(pages.next().unwrap().is_ok());
    assert!(matches!(pages.next(), Some(Err(SyntaxError::Other))));
    assert!(pages.next().is_none());
    let mut s = PageSplitter::new(full_matrix(), "a]b");
    assert!(s.pages().is_err());
}

#[test]
fn parse_values_reads_tags_and_text() {
    let (v, e) = parse_values("A[[B[jp2][pt5][cr1,2,3][cb1,2,3]");
    assert!(e.is_none());
    assert!(v[0] == Value::Text("A[".to_string()));
    assert!(v[1] == Value::Text("B".to_string()));
    assert!(v[2] == Value::JustificationPage(Some(PageJustification::Top)));
    assert!(v[3] == Value::PageTime(Some(5), None));
    assert!(v[4] == Value::Unsupported("cr1,2,3".to_string()));
    assert!(v[5] == Value::ColorBackground(Some(Color::RGB(1, 2, 3))));
    let (v, e) = parse_values("x[jl9]");
    assert_eq!(v.len(), 1);
    assert!(e == Some(SyntaxError::UnsupportedTagValue));
    let (v, e) = parse_values("");
    assert!(v.is_empty() && e.is_none());
}

#[test]
fn render_fills_background() {
    let mut rs = full_matrix();
    rs.text_rectangle = Rectangle::new(1, 1, 4, 3);
    let mut pages = PageSplitter::new(rs, "");
    let p = pages.next().unwrap().unwrap();
    let r = p.render(&FONT).unwrap();
    assert_eq!(r.width(), 4);
    assert_eq!(r.height(), 3);
    assert_eq!(r.pixel(3, 2), [0, 0, 0, 0]);
    let again = p.render(&FONT).unwrap();
    assert_eq!(again.pixel(3, 2), r.pixel(3, 2));
}

#[test]
fn render_resolves_color_scheme() {
    let mut rs = full_matrix();
    rs.color_scheme = ColorScheme::ColorClassic;
    let mut pages = PageSplitter::new(rs, "[pb1]");
    let r = pages.next().unwrap().unwrap().render(&FONT).unwrap();
    assert_eq!(r.pixel(0, 0), [255, 0, 0, 0]);
    let mut pages = PageSplitter::new(full_matrix(), "[pb5]");
    let p = pages.next().unwrap().unwrap();
    assert!(matches!(p.render(&FONT), Err(SyntaxError::Other)));
}

#[test]
fn colors_resolve_by_scheme() {
    assert_eq!(Color::Legacy(1).rgb(ColorScheme::Monochrome1Bit), Some((255, 255, 255)));
    assert_eq!(Color::Legacy(9).rgb(ColorScheme::Color24Bit), Some((255, 180, 0)));
    assert_eq!(Color::Legacy(40).rgb(ColorScheme::Monochrome8Bit), Some((40, 40, 40)));
    assert_eq!(Color::RGB(1, 2, 3).rgb(ColorScheme::ColorClassic), None);
    assert_eq!(Color::Legacy(10).rgb(ColorScheme::ColorClassic), None);
}

#[test]
fn raster_is_filled() {
    let r = Raster::new(2, 2, [1, 2, 3, 4]);
    assert_eq!(r.pixel(1, 1), [1, 2, 3, 4]);
    assert_eq!(r.width(), 2);
}

#[test]
fn spacing_average_rounds_half_up() {
    assert_eq!(spacing_avg(1, 2), 2);
    assert_eq!(spacing_avg(2, 2), 2);
    assert_eq!(spacing_avg(0, 1), 1);
    assert_eq!(spacing_avg(255, 255), 255);
}

#[test]
fn line_justification_offsets() {
    let mut rs = full_matrix();
    assert_eq!(fragment_left(&rs, 21), Ok(1));
    rs.just_line = LineJustification::Center;
    assert_eq!(fragment_left(&rs, 21), Ok(20));
    rs.just_line = LineJustification::Right;
    assert_eq!(fragment_left(&rs, 21), Ok(40));
    assert_eq!(fragment_left(&rs, 61), Err(SyntaxError::TextTooBig));
    rs.just_line = LineJustification::Full;
    assert_eq!(fragment_left(&rs, 21), Err(SyntaxError::UnsupportedTagValue));
    let mut cm = char_matrix();
    cm.just_line = LineJustification::Center;
    assert_eq!(fragment_left(&cm, 12), Ok(46));
}

#[test]
fn page_justification_offsets() {
    let mut rs = char_matrix();
    assert_eq!(block_top(&rs, 7), Ok(1));
    rs.just_page = PageJustification::Middle;
    assert_eq!(block_top(&rs, 7), Ok(8));
    rs.just_page = PageJustification::Bottom;
    assert_eq!(block_top(&rs, 7), Ok(15));
    assert_eq!(block_top(&rs, 28), Err(SyntaxError::TextTooBig));
    rs.just_page = PageJustification::Other;
    assert_eq!(block_top(&rs, 7), Err(SyntaxError::UnsupportedTagValue));
    assert_eq!(extra_space(100, 12, 5), Ok(90));
}

#[test]
fn fragment_width_averages_spacing() {
    let spans = vec![
        SpanMetrics { width: 10, char_spacing: 1 },
        SpanMetrics { width: 7, char_spacing: 2 },
        SpanMetrics { width: 5, char_spacing: 2 },
    ];
    assert_eq!(fragment_width(&spans), Some(10 + 2 + 7 + 2 + 5));
    assert_eq!(fragment_width(&vec![]), Some(0));
    let big = vec![
        SpanMetrics { width: u32::MAX, char_spacing: 0 },
        SpanMetrics { width: 1, char_spacing: 0 },
    ];
    assert_eq!(fragment_width(&big), None);
}

#[test]
fn block_height_uses_explicit_spacing() {
    let lines = vec![
        LineMetrics { height: 7, line_spacing: 3, explicit_spacing: None },
        LineMetrics { height: 7, line_spacing: 4, explicit_spacing: None },
        LineMetrics { height: 9, line_spacing: 4, explicit_spacing: Some(1) },
    ];
    assert_eq!(block_height(&lines), Some(7 + 4 + 7 + 1 + 9));
    assert_eq!(block_height(&vec![]), Some(0));
}

#[test]
fn spans_and_lines_are_placed() {
    let spans = vec![
        SpanMetrics { width: 10, char_spacing: 1 },
        SpanMetrics { width: 7, char_spacing: 2 },
    ];
    assert_eq!(span_lefts(5, &spans), Some(vec![5, 17]));
    let lines = vec![
        LineMetrics { height: 7, line_spacing: 3, explicit_spacing: None },
        LineMetrics { height: 9, line_spacing: 4, explicit_spacing: Some(1) },
    ];
    assert_eq!(line_baselines(1, &lines), Some(vec![8, 18]));
    let big = vec![SpanMetrics { width: u32::MAX, char_spacing: 0 }];
    assert_eq!(span_lefts(1, &big), None);
}

#[test]
fn text_too_wide_for_line() {
    let rs = char_matrix();
    let mut pages = PageSplitter::new(rs, "ABCDEFGHIJKLMNOPQRSTU");
    let p = pages.next().unwrap().unwrap();
    assert!(matches!(p.render(&FONT), Err(SyntaxError::TextTooBig)));
    let mut pages = PageSplitter::new(rs, "ABCDEFGHIJKLMNOPQRST");
    let p = pages.next().unwrap().unwrap();
    assert!(p.render(&FONT).is_ok());
}

#[test]
fn text_too_tall_for_page() {
    let rs = char_matrix();
    let mut pages = PageSplitter::new(rs, "A[nl]B[nl]C");
    assert!(pages.next().unwrap().unwrap().render(&FONT).is_ok());
    let mut pages = PageSplitter::new(rs, "A[nl]B[nl]C[nl]D");
    let p = pages.next().unwrap().unwrap();
    assert!(matches!(p.render(&FONT), Err(SyntaxError::TextTooBig)));
}

#[test]
fn full_justification_is_rejected_at_layout() {
    let mut pages = PageSplitter::new(full_matrix(), "[jl5]A");
    let p = pages.next().unwrap().unwrap();
    assert!(matches!(p.render(&FONT), Err(SyntaxError::UnsupportedTagValue)));
    let mut pages = PageSplitter::new(full_matrix(), "[jp1]A");
    let p = pages.next().unwrap().unwrap();
    assert!(matches!(p.render(&FONT), Err(SyntaxError::UnsupportedTagValue)));
    let mut pages = PageSplitter::new(full_matrix(), "[jl5]");
    assert!(pages.next().unwrap().unwrap().render(&FONT).is_ok());
}

#[test]
fn justification_resets_to_sign_default() {
    let mut pages = PageSplitter::new(full_matrix(), "[jl5][np][jl]A");
    let _ = pages.next().unwrap().unwrap();
    let p = pages.next().unwrap().unwrap();
    assert!(p.render_state.just_line == LineJustification::Full);
    assert!(p.render(&FONT).is_ok());
    let mut pages = PageSplitter::new(full_matrix(), "[jl5][np]A");
    let _ = pages.next().unwrap().unwrap();
    let p = pages.next().unwrap().unwrap();
    assert!(matches!(p.render(&FONT), Err(SyntaxError::UnsupportedTagValue)));
}

#[test]
fn tags_read_in_either_case() {
    assert!(parse_tag("Np") == Ok(Value::NewPage));
    assert!(parse_tag("/SC") == Ok(Value::SpacingCharacterEnd));
    assert!(parse_tag("FO3,12aB") == Ok(Value::Font(Some((3, Some(0x12ab))))));
    assert!(parse_tag("tr1,1,2") == Err(SyntaxError::UnsupportedTagValue));
    assert!(parse_tag("PT5O") == Ok(Value::PageTime(Some(5), None)));
    assert!(parse_tag("pt5x") == Err(SyntaxError::UnsupportedTagValue));
    assert!(parse_tag("hc41") == Ok(Value::Unsupported("hc41".to_string())));
}
