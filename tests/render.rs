use honeybee::multi::{Color, ColorScheme, LineJustification, PageJustification, Rectangle, SyntaxError};
use honeybee::render::{PageRenderer, PageSplitter, RenderState};

fn make_full_matrix() -> RenderState {
    RenderState::new(
        ColorScheme::Monochrome1Bit,
        Color::Legacy(1),
        Color::Legacy(0),
        20,
        0,
        Rectangle::new(1, 1, 60, 30),
        PageJustification::Top,
        LineJustification::Left,
        0,
        0,
        (1, None),
    )
}

fn make_char_matrix() -> RenderState {
    RenderState::new(
        ColorScheme::Monochrome1Bit,
        Color::Legacy(1),
        Color::Legacy(0),
        20,
        0,
        Rectangle::new(1, 1, 100, 21),
        PageJustification::Top,
        LineJustification::Left,
        5,
        7,
        (1, None),
    )
}

fn collect(rs: RenderState, ms: &str) -> Vec<Result<PageRenderer, SyntaxError>> {
    let mut pages = PageSplitter::new(rs, ms);
    let mut out = Vec::new();
    while let Some(p) = pages.next() {
        out.push(p);
    }
    out
}

#[test]
fn page_count() {
    let rs = make_full_matrix();
    let pages = collect(rs, "");
    assert!(pages.len() == 1);
    let pages = collect(rs, "1");
    assert!(pages.len() == 1);
    let pages = collect(rs, "[np]");
    assert!(pages.len() == 2);
    let pages = collect(rs, "1[NP]");
    assert!(pages.len() == 2);
    let pages = collect(rs, "1[Np]2");
    assert!(pages.len() == 2);
    let pages = collect(rs, "1[np]2[nP]");
    assert!(pages.len() == 3);
}

#[test]
fn page_full_matrix() {
    let rs = make_full_matrix();
    let mut pages = PageSplitter::new(rs, "");
    let p = pages.next().unwrap().unwrap();
    let rs = p.render_state;
    assert!(rs.color_scheme == ColorScheme::Monochrome1Bit);
    assert!(rs.color_foreground == Color::Legacy(1));
    assert!(rs.color_background == Color::Legacy(0));
    assert!(rs.page_background == Color::Legacy(0));
    assert!(rs.page_on_time_ds == 20);
    assert!(rs.page_off_time_ds == 0);
    assert!(rs.text_rectangle == Rectangle::new(1, 1, 60, 30));
    assert!(rs.just_page == PageJustification::Top);
    assert!(rs.just_line == LineJustification::Left);
    assert!(rs.line_spacing == None);
    assert!(rs.char_spacing == None);
    assert!(rs.char_width == 0);
    assert!(rs.char_height == 0);
    assert!(rs.font == (1, None));
    let mut pages = PageSplitter::new(
        rs,
        "[pt10o2][cb9][pb5][cf3][jp3]\
        [jl4][tr1,1,10,10][nl4][fo3,1234][sc2][np][pb][pt][cb][/sc]",
    );
    let p = pages.next().unwrap().unwrap();
    let rs = p.render_state;
    assert!(rs.color_foreground == Color::Legacy(1));
    assert!(rs.color_background == Color::Legacy(0));
    assert!(rs.page_background == Color::Legacy(5));
    assert!(rs.page_on_time_ds == 10);
    assert!(rs.page_off_time_ds == 2);
    assert!(rs.text_rectangle == Rectangle::new(1, 1, 60, 30));
    assert!(rs.just_page == PageJustification::Top);
    assert!(rs.just_line == LineJustification::Left);
    assert!(rs.line_spacing == None);
    assert!(rs.char_spacing == None);
    assert!(rs.font == (1, None));
    let p = pages.next().unwrap().unwrap();
    let rs = p.render_state;
    assert!(rs.color_foreground == Color::Legacy(3));
    assert!(rs.color_background == Color::Legacy(9));
    assert!(rs.page_background == Color::Legacy(0));
    assert!(rs.page_on_time_ds == 20);
    assert!(rs.page_off_time_ds == 0);
    assert!(rs.text_rectangle == Rectangle::new(1, 1, 60, 30));
    assert!(rs.just_page == PageJustification::Middle);
    assert!(rs.just_line == LineJustification::Right);
    assert!(rs.line_spacing == None);
    assert!(rs.char_spacing == Some(2));
    assert!(rs.font == (3, Some(0x1234)));
}

#[test]
fn page_char_matrix() {
    let rs = make_char_matrix();
    let mut pages = PageSplitter::new(rs, "[tr1,1,12,12]");
    if let Some(Err(SyntaxError::UnsupportedTagValue)) = pages.next() {
        assert!(true);
    } else {
        assert!(false)
    }
    let mut pages = PageSplitter::new(rs, "[tr1,1,50,12]");
    if let Some(Err(SyntaxError::UnsupportedTagValue)) = pages.next() {
        assert!(true);
    } else {
        assert!(false)
    }
    let mut pages = PageSplitter::new(rs, "[tr1,1,12,14]");
    if let Some(Err(SyntaxError::UnsupportedTagValue)) = pages.next() {
        assert!(true);
    } else {
        assert!(false)
    }
    let mut pages = PageSplitter::new(rs, "[tr1,1,50,14]");
    if let Some(Ok(_)) = pages.next() {
        assert!(true);
    } else {
        assert!(false)
    }
}
