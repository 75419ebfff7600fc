//! Render state, page splitting and page rendering.
use vstd::prelude::*;
use crate::raster::Raster;
use crate::layout::{left_of, top_of};
use crate::multi::{
    breaks, color_rgb, lemma_breaks_lexemes, lexemes, page_breaks, message_error, message_lexemes, parse_values,
    Color, ColorScheme, LineJustification, PageJustification, Rectangle, SyntaxError, Value,
    rect_contains,
};

verus! {

/// Formatting attributes in effect at one point of a message.
#[derive(Clone, Copy, Debug, PartialEq, Eq)]
pub struct RenderState {
    pub color_scheme: ColorScheme,
    pub color_foreground: Color,
    /// Background color of text.
    pub color_background: Color,
    pub page_background: Color,
    /// Page on time, in deciseconds.
    pub page_on_time_ds: u8,
    /// Page off time, in deciseconds.
    pub page_off_time_ds: u8,
    pub text_rectangle: Rectangle,
    pub just_page: PageJustification,
    pub just_line: LineJustification,
    pub line_spacing: Option<u8>,
    pub char_spacing: Option<u8>,
    /// Character cell width; 0 for variable width.
    pub char_width: u8,
    /// Character cell height; 0 for variable height.
    pub char_height: u8,
    /// Font number and optional version.
    pub font: (u8, Option<u16>),
}

/// Is `v - 1` a multiple of `size`?  (`size` is positive.)
pub open spec fn cell_aligned_origin(v: u16, size: u8) -> bool {
    (v as int - 1) % (size as int) == 0
}

/// Does rectangle `r` fit the character cells and lines of `s`?
pub open spec fn rect_aligned(s: RenderState, r: Rectangle) -> bool {
    &&& s.char_width > 0 ==> cell_aligned_origin(r.x, s.char_width) && (r.w as int) % (
    s.char_width as int) == 0
    &&& s.char_height > 0 ==> cell_aligned_origin(r.y, s.char_height) && (r.h as int) % (
    s.char_height as int) == 0
}

/// Is a text rectangle tag with rectangle `r` accepted in state `s`, under
/// default state `d`?
pub open spec fn rect_accepted(s: RenderState, d: RenderState, r: Rectangle) -> bool {
    rect_contains(d.text_rectangle, r) && rect_aligned(s, r)
}

/// Error of a rejected value, as far as its kind goes.
pub open spec fn rejection_of(v: Value, e: SyntaxError) -> bool {
    match v {
        Value::NewLine(_) => e == SyntaxError::UnsupportedTagValue,
        Value::TextRectangle(_) => e == SyntaxError::UnsupportedTagValue,
        Value::SpacingCharacter(_) => match e {
            SyntaxError::UnsupportedTag(n) => n@ == "sc"@,
            _ => false,
        },
        Value::NewPage => match e {
            SyntaxError::UnsupportedTag(n) => n@ == "np"@,
            _ => false,
        },
        Value::Unsupported(t) => e == SyntaxError::UnsupportedTag(t),
        _ => false,
    }
}


/// Is the sign a character matrix (fixed character width)?
pub open spec fn char_matrix(s: RenderState) -> bool {
    s.char_width > 0
}

/// Is the sign a full matrix (variable character width and line height)?
pub open spec fn full_matrix(s: RenderState) -> bool {
    s.char_width == 0 && s.char_height == 0
}

/// The state after value `v` is applied to state `s`, with default state
/// `d`; `None` where the value is rejected.
pub open spec fn updated(s: RenderState, d: RenderState, v: Value) -> Option<RenderState> {
    match v {
        Value::ColorBackground(c) => Some(
            RenderState {
                color_background: match c {
                    Some(c) => c,
                    None => d.color_background,
                },
                ..s
            },
        ),
        Value::ColorForeground(c) => Some(
            RenderState {
                color_foreground: match c {
                    Some(c) => c,
                    None => d.color_foreground,
                },
                ..s
            },
        ),
        Value::Font(f) => Some(
            RenderState {
                font: match f {
                    Some(f) => f,
                    None => d.font,
                },
                ..s
            },
        ),
        Value::JustificationLine(jl) => Some(
            RenderState {
                just_line: match jl {
                    Some(j) => j,
                    None => d.just_line,
                },
                ..s
            },
        ),
        Value::JustificationPage(jp) => Some(
            RenderState {
                just_page: match jp {
                    Some(j) => j,
                    None => d.just_page,
                },
                ..s
            },
        ),
        Value::NewLine(None) => Some(RenderState { line_spacing: None, ..s }),
        Value::NewLine(Some(ls)) => if full_matrix(s) {
            Some(RenderState { line_spacing: Some(ls), ..s })
        } else {
            None
        },
        Value::PageBackground(c) => Some(
            RenderState {
                page_background: match c {
                    Some(c) => c,
                    None => d.page_background,
                },
                ..s
            },
        ),
        Value::PageTime(on, off) => Some(
            RenderState {
                page_on_time_ds: match on {
                    Some(t) => t,
                    None => d.page_on_time_ds,
                },
                page_off_time_ds: match off {
                    Some(t) => t,
                    None => d.page_off_time_ds,
                },
                ..s
            },
        ),
        Value::SpacingCharacter(sc) => if char_matrix(s) {
            None
        } else {
            Some(RenderState { char_spacing: Some(sc), ..s })
        },
        Value::SpacingCharacterEnd => Some(RenderState { char_spacing: None, ..s }),
        Value::TextRectangle(r) => if rect_accepted(s, d, r) {
            Some(RenderState { text_rectangle: r, ..s })
        } else {
            None
        },
        Value::Text(_) => Some(s),
        Value::NewPage => None,
        Value::Unsupported(_) => None,
    }
}

/// Is `v - 1` a multiple of `size`?
fn origin_aligned(v: u16, size: u16) -> (b: bool)
    requires
        0 < size < 256,
    ensures
        b == cell_aligned_origin(v, size as u8),
{
    if v == 0 {
        proof {
            if size > 1 {
                assert((-1int) % (size as int) == size - 1) by (nonlinear_arith)
                    requires
                        size > 1,
                ;
            }
        }
        size == 1
    } else {
        (v - 1) % size == 0
    }
}

impl RenderState {
    /// Create a render state from a sign's defaults.
    pub fn new(
        color_scheme: ColorScheme,
        color_foreground: Color,
        page_background: Color,
        page_on_time_ds: u8,
        page_off_time_ds: u8,
        text_rectangle: Rectangle,
        just_page: PageJustification,
        just_line: LineJustification,
        char_width: u8,
        char_height: u8,
        font: (u8, Option<u16>),
    ) -> (r: Self)
        ensures
            r == (RenderState {
                color_scheme,
                color_foreground,
                color_background: page_background,
                page_background,
                page_on_time_ds,
                page_off_time_ds,
                text_rectangle,
                just_page,
                just_line,
                line_spacing: None,
                char_spacing: None,
                char_width,
                char_height,
                font,
            }),
    {
        let color_background = page_background;
        RenderState {
            color_scheme,
            color_foreground,
            color_background,
            page_background,
            page_on_time_ds,
            page_off_time_ds,
            text_rectangle,
            line_spacing: None,
            char_spacing: None,
            just_page,
            just_line,
            char_width,
            char_height,
            font,
        }
    }

    /// Check if the sign is a character matrix.
    fn is_char_matrix(&self) -> (b: bool)
        ensures
            b == char_matrix(*self),
    {
        self.char_width > 0
    }

    /// Check if the sign is a full matrix.
    fn is_full_matrix(&self) -> (b: bool)
        ensures
            b == full_matrix(*self),
    {
        self.char_width == 0 && self.char_height == 0
    }

    /// Character width in pixels (1 for variable width).
    pub fn char_width(&self) -> (w: u32)
        ensures
            w == if char_matrix(*self) {
                self.char_width as u32
            } else {
                1
            },
    {
        if self.is_char_matrix() {
            self.char_width as u32
        } else {
            1
        }
    }

    /// Line height in pixels (1 for variable height).
    pub fn char_height(&self) -> (h: u32)
        ensures
            h == if self.char_height > 0 {
                self.char_height as u32
            } else {
                1
            },
    {
        if self.char_height > 0 {
            self.char_height as u32
        } else {
            1
        }
    }

    /// Apply one value of a message to the state.
    ///
    /// * `default_state` Default render state of the sign.
    /// * `v` The value to apply.
    pub fn update(&mut self, default_state: &RenderState, v: &Value) -> (r: Result<(), SyntaxError>)
        ensures
            match updated(*old(self), *default_state, *v) {
                Some(s) => r is Ok && *final(self) == s,
                None => match r {
                    Ok(_) => false,
                    Err(e) => *final(self) == *old(self) && rejection_of(*v, e),
                },
            },
    {
        match v {
            Value::ColorBackground(None) => {
                self.color_background = default_state.color_background;
            },
            Value::ColorBackground(Some(c)) => {
                self.color_background = *c;
            },
            Value::ColorForeground(None) => {
                self.color_foreground = default_state.color_foreground;
            },
            Value::ColorForeground(Some(c)) => {
                self.color_foreground = *c;
            },
            Value::Font(None) => {
                self.font = default_state.font;
            },
            Value::Font(Some(f)) => {
                self.font = *f;
            },
            Value::JustificationLine(None) => {
                self.just_line = default_state.just_line;
            },
            Value::JustificationLine(Some(jl)) => {
                self.just_line = *jl;
            },
            Value::JustificationPage(None) => {
                self.just_page = default_state.just_page;
            },
            Value::JustificationPage(Some(jp)) => {
                self.just_page = *jp;
            },
            Value::NewLine(None) => {
                self.line_spacing = None;
            },
            Value::NewLine(Some(ls)) => {
                if !self.is_full_matrix() {
                    return Err(SyntaxError::UnsupportedTagValue);
                }
                self.line_spacing = Some(*ls);
            },
            Value::PageBackground(None) => {
                self.page_background = default_state.page_background;
            },
            Value::PageBackground(Some(c)) => {
                self.page_background = *c;
            },
            Value::PageTime(on, off) => {
                self.page_on_time_ds = match on {
                    Some(t) => *t,
                    None => default_state.page_on_time_ds,
                };
                self.page_off_time_ds = match off {
                    Some(t) => *t,
                    None => default_state.page_off_time_ds,
                };
            },
            Value::SpacingCharacter(sc) => {
                if self.is_char_matrix() {
                    return Err(SyntaxError::UnsupportedTag("sc".to_owned()));
                }
                self.char_spacing = Some(*sc);
            },
            Value::SpacingCharacterEnd => {
                self.char_spacing = None;
            },
            Value::TextRectangle(r) => {
                return self.update_text_rectangle(default_state, r);
            },
            Value::Text(_) => {},
            Value::NewPage => {
                // A page break is no formatting attribute
                return Err(SyntaxError::UnsupportedTag("np".to_owned()));
            },
            Value::Unsupported(t) => {
                return Err(SyntaxError::UnsupportedTag(t.clone()));
            },
        }
        Ok(())
    }

    /// Set the text rectangle, checking that it lies within the default text
    /// rectangle and matches the character cells.
    pub fn update_text_rectangle(&mut self, default_state: &RenderState, r: &Rectangle) -> (res:
        Result<(), SyntaxError>)
        ensures
            rect_accepted(*old(self), *default_state, *r) ==> res is Ok && *final(self) == (
            RenderState { text_rectangle: *r, ..*old(self) }),
            !rect_accepted(*old(self), *default_state, *r) ==> res == Err::<(), SyntaxError>(
                SyntaxError::UnsupportedTagValue,
            ) && *final(self) == *old(self),
    {
        if !default_state.text_rectangle.contains(r) {
            return Err(SyntaxError::UnsupportedTagValue);
        }
        let cw = self.char_width as u16;
        if cw > 0 {
            // Check text rectangle matches character boundaries
            if !origin_aligned(r.x, cw) || r.w % cw != 0 {
                return Err(SyntaxError::UnsupportedTagValue);
            }
        }
        let lh = self.char_height as u16;
        if lh > 0 {
            // Check text rectangle matches line boundaries
            if !origin_aligned(r.y, lh) || r.h % lh != 0 {
                return Err(SyntaxError::UnsupportedTagValue);
            }
        }
        self.text_rectangle = *r;
        Ok(())
    }
}


/// Number of values before the first page break (all of them if none).
pub open spec fn page_len(t: Seq<Value>) -> nat
    decreases t.len(),
{
    if t.len() == 0 {
        0
    } else if t[0] is NewPage {
        0
    } else {
        1 + page_len(t.drop_first())
    }
}

/// Does the sequence hold no page break?
pub open spec fn no_break(t: Seq<Value>) -> bool {
    forall|i: int| 0 <= i < t.len() ==> !(#[trigger] t[i] is NewPage)
}

/// The state after applying each value in turn; `None` where one is rejected.
pub open spec fn run(s: RenderState, d: RenderState, t: Seq<Value>) -> Option<RenderState>
    decreases t.len(),
{
    if t.len() == 0 {
        Some(s)
    } else {
        match run(s, d, t.drop_last()) {
            Some(x) => updated(x, d, t.last()),
            None => None,
        }
    }
}

/// The state in which a page starts, given the running state: the text
/// rectangle and the line spacing go back to their defaults.
pub open spec fn page_start(s: RenderState, d: RenderState) -> RenderState {
    RenderState { text_rectangle: d.text_rectangle, line_spacing: d.line_spacing, ..s }
}

/// The state of a page that started in running state `s` and ended in
/// running state `e`: page background and page times hold for the whole page.
pub open spec fn page_state_of(s: RenderState, d: RenderState, e: RenderState) -> RenderState {
    RenderState {
        page_background: e.page_background,
        page_on_time_ds: e.page_on_time_ds,
        page_off_time_ds: e.page_off_time_ds,
        ..page_start(s, d)
    }
}

proof fn lemma_page_len(t: Seq<Value>, k: int)
    requires
        0 <= k <= t.len(),
        no_break(t.take(k)),
    ensures
        k <= page_len(t) <= t.len(),
        (k == t.len() || t[k] is NewPage) ==> page_len(t) == k,
    decreases t.len(),
{
    if t.len() > 0 {
        if k == 0 {
            lemma_page_len_bound(t);
        } else {
            assert(t.take(k)[0] == t[0]);
            let u = t.drop_first();
            assert forall|i: int| 0 <= i < k - 1 implies !(#[trigger] u.take(k - 1)[i] is NewPage) by {
                assert(u.take(k - 1)[i] == t.take(k)[i + 1]);
            }
            lemma_page_len(u, k - 1);
            if k < t.len() {
                assert(u[k - 1] == t[k]);
            }
        }
    }
}

proof fn lemma_page_len_bound(t: Seq<Value>)
    ensures
        page_len(t) <= t.len(),
        page_len(t) < t.len() ==> t[page_len(t) as int] is NewPage,
    decreases t.len(),
{
    if t.len() > 0 && !(t[0] is NewPage) {
        lemma_page_len_bound(t.drop_first());
    }
}

proof fn lemma_breaks_after_page(t: Seq<Value>)
    ensures
        page_len(t) < t.len() ==> breaks(t) == 1 + breaks(t.skip(page_len(t) as int + 1)),
        page_len(t) == t.len() ==> breaks(t) == 0,
    decreases t.len(),
{
    if t.len() > 0 {
        let u = t.drop_first();
        lemma_page_len_bound(u);
        lemma_breaks_after_page(u);
        if t[0] is NewPage {
            assert(t.skip(1) =~= u);
        } else if page_len(t) < t.len() {
            assert(t.skip(page_len(t) as int + 1) =~= u.skip(page_len(u) as int + 1));
        }
    }
}

/// Everything between two page boundaries: the page's state and its values.
pub struct PageRenderer {
    pub render_state: RenderState,
    pub values: Vec<Value>,
    /// Default state of the sign, to which attributes are reset.
    pub default_state: RenderState,
}

/// Splits the values of a message into pages.
pub struct PageSplitter {
    pub default_state: RenderState,
    pub render_state: RenderState,
    /// Values not yet consumed, in message order.
    pub values: Vec<Value>,
    /// Error that follows the values, where the message is malformed there.
    pub error: Option<SyntaxError>,
    /// Does another page follow?
    pub more: bool,
}

impl PageRenderer {
    /// Create a new page renderer.
    pub fn new(render_state: RenderState, values: Vec<Value>) -> (r: Self)
        ensures
            r.render_state == render_state,
            r.values@ == values@,
            r.default_state == render_state,
    {
        PageRenderer { render_state, values, default_state: render_state }
    }

    /// Create a page renderer for a page of a sign with default state
    /// `default_state`.
    pub fn with_default(default_state: RenderState, render_state: RenderState, values: Vec<Value>) -> (r: Self)
        ensures
            r.render_state == render_state,
            r.values@ == values@,
            r.default_state == default_state,
    {
        PageRenderer { render_state, values, default_state }
    }
}

impl PageSplitter {
    /// Values not yet consumed.
    pub open spec fn rest(&self) -> Seq<Value> {
        self.values@
    }

    /// Error that follows the values not yet consumed, if any.
    pub open spec fn trailing_error(&self) -> Option<SyntaxError> {
        self.error
    }

    /// Does another page follow?
    pub open spec fn has_more(&self) -> bool {
        self.more
    }

    /// Number of pages still to come, where no error stops them.
    pub open spec fn pages_left(&self) -> nat {
        if self.has_more() {
            1 + breaks(self.rest())
        } else {
            0
        }
    }

    /// Create a new page splitter.
    ///
    /// * `render_state` Default render state.
    /// * `ms` MULTI string to split.
    pub fn new(render_state: RenderState, ms: &str) -> (r: Self)
        ensures
            r.default_state == render_state,
            r.render_state == render_state,
            r.has_more(),
            lexemes(r.rest()) == message_lexemes(ms@),
            r.trailing_error() == message_error(ms@),
    {
        let (values, error) = parse_values(ms);
        PageSplitter::with_values(render_state, values, error)
    }

    /// Create a page splitter over the values of a message.
    ///
    /// * `render_state` Default render state.
    /// * `values` The message's values, in order.
    /// * `error` Error that follows them, where the message is malformed.
    pub fn with_values(render_state: RenderState, values: Vec<Value>, error: Option<SyntaxError>) -> (r: Self)
        ensures
            r.default_state == render_state,
            r.render_state == render_state,
            r.rest() == values@,
            r.trailing_error() == error,
            r.has_more(),
    {
        PageSplitter { default_state: render_state, render_state, values, error, more: true }
    }

    /// Get the state in which the next page starts.
    fn page_state(&self) -> (r: RenderState)
        ensures
            r == page_start(self.render_state, self.default_state),
    {
        let mut rs = self.render_state;
        // Set these back to default values
        rs.text_rectangle = self.default_state.text_rectangle;
        rs.line_spacing = self.default_state.line_spacing;
        rs
    }

    /// Make the next page.
    fn make_page(&mut self) -> (r: Result<PageRenderer, SyntaxError>)
        ensures
            final(self).default_state == old(self).default_state,
            final(self).rest().len() <= old(self).rest().len(),
            page_step(*old(self), *final(self), r),
    {
        let ghost t = self.values@;
        let ghost s0 = self.render_state;
        let ghost d = self.default_state;
        let total: usize = self.values.len();
        self.more = false;
        let mut rs = self.page_state();
        let mut values: Vec<Value> = Vec::new();
        let mut k: usize = 0;
        proof {
            assert(t.take(0) =~= Seq::<Value>::empty());
            assert(t.skip(0) =~= t);
        }
        while self.values.len() > 0
            invariant
                t == old(self).values@,
                s0 == old(self).render_state,
                d == old(self).default_state,
                total == t.len(),
                self.default_state == d,
                !self.more,
                self.error == old(self).error,
                rs == page_start(s0, d),
                k <= t.len(),
                values@ == t.take(k as int),
                self.values@ == t.skip(k as int),
                no_break(t.take(k as int)),
                run(s0, d, t.take(k as int)) == Some(self.render_state),
            decreases self.values@.len(),
        {
            let v = self.values.remove(0);
            proof {
                assert(v == t[k as int]);
                assert(self.values@ =~= t.skip(k + 1));
            }
            if let Value::NewPage = v {
                proof {
                    lemma_page_len(t, k as int);
                }
                self.more = true;
                let page = PageRenderer::with_default(
                    self.default_state,
                    RenderState {
                        page_background: self.render_state.page_background,
                        page_on_time_ds: self.render_state.page_on_time_ds,
                        page_off_time_ds: self.render_state.page_off_time_ds,
                        ..rs
                    },
                    values,
                );
                return Ok(page);
            }
            let res = self.render_state.update(&self.default_state, &v);
            proof {
                assert(t.take(k + 1).drop_last() =~= t.take(k as int));
                assert(t.take(k + 1).last() == v);
            }
            if let Err(e) = res {
                proof {
                    assert forall|i: int| 0 <= i < k + 1 implies !(#[trigger] t.take(k + 1)[i] is NewPage) by {
                        if i < k {
                            assert(t.take(k + 1)[i] == t.take(k as int)[i]);
                        }
                    }
                    lemma_page_len(t, k + 1);
                    lemma_run_prefix_fails(s0, d, t, (k + 1) as int, page_len(t) as int);
                    assert(run(s0, d, t.take(k as int)) is Some);
                }
                return Err(e);
            }
            values.push(v);
            k = k + 1;
            proof {
                assert(values@ =~= t.take(k as int));
                assert forall|i: int| 0 <= i < k implies !(#[trigger] t.take(k as int)[i] is NewPage) by {
                    if i < k - 1 {
                        assert(t.take(k as int)[i] == t.take(k - 1)[i]);
                    }
                }
            }
        }
        proof {
            assert(t.take(k as int) =~= t);
            lemma_page_len(t, k as int);
        }
        match self.error.take() {
            Some(e) => Err(e),
            None => {
                let page = PageRenderer::with_default(
                    self.default_state,
                    RenderState {
                        page_background: self.render_state.page_background,
                        page_on_time_ds: self.render_state.page_on_time_ds,
                        page_off_time_ds: self.render_state.page_off_time_ds,
                        ..rs
                    },
                    values,
                );
                Ok(page)
            },
        }
    }
}

/// The outcome of making one page: `a` is the splitter before, `b` after,
/// and `r` the page made or the error met.
pub open spec fn page_step(a: PageSplitter, b: PageSplitter, r: Result<PageRenderer, SyntaxError>) -> bool {
    let t = a.rest();
    let n = page_len(t);
    let content = t.take(n as int);
    let d = a.default_state;
    &&& b.default_state == d
    &&& match run(a.render_state, d, content) {
        None => {
            &&& !b.has_more()
            &&& r is Err
            &&& exists|j: int|
                0 <= j < n && #[trigger] run(a.render_state, d, t.take(j)) is Some && updated(
                    run(a.render_state, d, t.take(j))->Some_0,
                    d,
                    t[j],
                ) is None && rejection_of(t[j], r->Err_0)
        },
        Some(e) => if n < t.len() {
            &&& r is Ok
            &&& b.has_more()
            &&& b.render_state == e
            &&& b.rest() == t.skip(n as int + 1)
            &&& b.trailing_error() == a.trailing_error()
            &&& r->Ok_0.values@ == content
            &&& r->Ok_0.render_state == page_state_of(a.render_state, d, e)
            &&& r->Ok_0.default_state == d
        } else {
            &&& !b.has_more()
            &&& match a.trailing_error() {
                Some(err) => r == Err::<PageRenderer, SyntaxError>(err),
                None => r is Ok && r->Ok_0.values@ == content && r->Ok_0.render_state
                    == page_state_of(a.render_state, d, e) && r->Ok_0.default_state == d,
            }
        },
    }
}

/// The pages of values `t`, with running state `s` and default state `d`,
/// where `err` follows the values: each page's state and values, or `None`
/// where a value is rejected or the error is reached.
pub open spec fn split_pages(
    s: RenderState,
    d: RenderState,
    t: Seq<Value>,
    err: Option<SyntaxError>,
) -> Option<Seq<(RenderState, Seq<Value>)>>
    decreases t.len(),
{
    let n = page_len(t);
    let content = t.take(n as int);
    match run(s, d, content) {
        None => None,
        Some(e) => {
            let page = (page_state_of(s, d, e), content);
            if n < t.len() {
                match split_pages(e, d, t.skip(n as int + 1), err) {
                    Some(rest) => Some(seq![page] + rest),
                    None => None,
                }
            } else if err is Some {
                None
            } else {
                Some(seq![page])
            }
        },
    }
}

/// A page made, as its state and values.
pub open spec fn page_view(p: PageRenderer) -> (RenderState, Seq<Value>) {
    (p.render_state, p.values@)
}

/// The pixels of an empty page of `w` x `h` pixels in background color `c`;
/// the alpha channel is 0, marking pixels as untouched background.
pub open spec fn blank_page(w: u16, h: u16, c: (u8, u8, u8)) -> Seq<[u8; 4]> {
    Seq::new(w as nat * h as nat, |_i: int| [c.0, c.1, c.2, 0u8])
}

/// Measures of the font that a page is set in, in pixels.
#[derive(Clone, Copy, Debug, PartialEq, Eq, Structural)]
pub struct FontMetrics {
    pub glyph_width: u8,
    pub glyph_height: u8,
    /// Spacing between characters, where no explicit spacing is set.
    pub char_spacing: u8,
    /// Spacing between lines, where no explicit spacing is set.
    pub line_spacing: u8,
}

/// How the text of a page fits its text rectangle.
pub enum Layout {
    /// All text fits.
    Fits,
    /// Laying out text failed with this error.
    Fails(SyntaxError),
    /// This value was rejected by the render state.
    Rejected(Value),
}

/// Width of `k` characters with glyph width `gw` and spacing `cs`.
pub open spec fn text_width(k: int, gw: int, cs: int) -> int {
    if k == 0 {
        0
    } else {
        k * gw + (k - 1) * cs
    }
}

/// Character spacing in effect: the explicit one, else the font's.
pub open spec fn char_gap(s: RenderState, f: FontMetrics) -> int {
    match s.char_spacing {
        Some(cs) => cs as int,
        None => f.char_spacing as int,
    }
}

/// Layout of values `t` from index `i` on, in state `s` with default state
/// `d`, where the current line is `w` pixels wide and the lines above it take
/// `h` pixels.  Each run of text widens its line by the spacing and its
/// characters; the line so far must fit the rectangle under the line
/// justification in effect, and the lines so far under the page
/// justification.  A new line moves down by the line height and its spacing.
pub open spec fn layout_from(
    s: RenderState,
    d: RenderState,
    t: Seq<Value>,
    i: int,
    f: FontMetrics,
    w: int,
    h: int,
) -> Layout
    decreases t.len() - i,
{
    if i < 0 || i >= t.len() {
        Layout::Fits
    } else {
        match t[i] {
            Value::Text(x) => {
                let cs = char_gap(s, f);
                let k = x@.len() as int;
                let w2 = if w > 0 {
                    w + cs + text_width(k, f.glyph_width as int, cs)
                } else {
                    text_width(k, f.glyph_width as int, cs)
                };
                let h2 = h + f.glyph_height;
                if k == 0 {
                    layout_from(s, d, t, i + 1, f, w, h)
                } else if w2 > u32::MAX {
                    Layout::Fails(SyntaxError::TextTooBig)
                } else if left_of(s, w2 as u32) is Err {
                    Layout::Fails(left_of(s, w2 as u32)->Err_0)
                } else if h2 > u32::MAX {
                    Layout::Fails(SyntaxError::TextTooBig)
                } else if top_of(s, h2 as u32) is Err {
                    Layout::Fails(top_of(s, h2 as u32)->Err_0)
                } else {
                    layout_from(s, d, t, i + 1, f, w2, h)
                }
            },
            v => match updated(s, d, v) {
                None => Layout::Rejected(v),
                Some(s2) => match v {
                    Value::NewLine(ls) => layout_from(
                        s2,
                        d,
                        t,
                        i + 1,
                        f,
                        0,
                        h + f.glyph_height + match ls {
                            Some(x) => x as int,
                            None => f.line_spacing as int,
                        },
                    ),
                    _ => layout_from(s2, d, t, i + 1, f, w, h),
                },
            },
        }
    }
}

fn fits(r: Result<u32, SyntaxError>) -> (e: Option<SyntaxError>)
    ensures
        r is Ok ==> e is None,
        r matches Err(x) ==> e == Some(x),
{
    match r {
        Ok(_) => None,
        Err(x) => Some(x),
    }
}

impl PageRenderer {
    /// Check that the page's text fits, laying it out with font `font`.
    fn layout(&self, font: &FontMetrics) -> (r: Result<(), SyntaxError>)
        ensures
            match layout_from(
                self.render_state,
                self.default_state,
                self.values@,
                0,
                *font,
                0,
                0,
            ) {
                Layout::Fits => r is Ok,
                Layout::Fails(e) => r == Err::<(), SyntaxError>(e),
                Layout::Rejected(v) => r is Err && rejection_of(v, r->Err_0),
            },
    {
        let d = self.default_state;
        let mut s = self.render_state;
        let mut w: u128 = 0;
        let mut h: u128 = 0;
        let mut i: usize = 0;
        let ghost whole = layout_from(self.render_state, d, self.values@, 0, *font, 0, 0);
        while i < self.values.len()
            invariant
                d == self.default_state,
                whole == layout_from(self.render_state, d, self.values@, 0, *font, 0, 0),
                whole == layout_from(s, d, self.values@, i as int, *font, w as int, h as int),
                i <= self.values@.len(),
                w <= u32::MAX,
                h <= 1024 * i,
            decreases self.values@.len() - i,
        {
            let v = &self.values[i];
            match v {
                Value::Text(x) => {
                    let k = x.unicode_len() as u128;
                    if k > 0 {
                        let cs: u128 = match s.char_spacing {
                            Some(c) => c as u128,
                            None => font.char_spacing as u128,
                        };
                        proof {
                            assert(k * (font.glyph_width as u128) <= k * 255) by (nonlinear_arith)
                                requires
                                    font.glyph_width <= 255,
                            ;
                            assert((k - 1) * cs <= k * 255) by (nonlinear_arith)
                                requires
                                    cs <= 255,
                                    k >= 1,
                            ;
                            assert(k * 255 <= 0xffff_ffff_ffff_ffff * 255) by (nonlinear_arith)
                                requires
                                    k <= 0xffff_ffff_ffff_ffff,
                            ;
                        }
                        let tw: u128 = k * (font.glyph_width as u128) + (k - 1) * cs;
                        let w2: u128 = if w > 0 {
                            w + cs + tw
                        } else {
                            tw
                        };
                        if w2 > u32::MAX as u128 {
                            return Err(SyntaxError::TextTooBig);
                        }
                        if let Some(e) = fits(crate::layout::fragment_left(&s, w2 as u32)) {
                            return Err(e);
                        }
                        let h2: u128 = h + font.glyph_height as u128;
                        if h2 > u32::MAX as u128 {
                            return Err(SyntaxError::TextTooBig);
                        }
                        if let Some(e) = fits(crate::layout::block_top(&s, h2 as u32)) {
                            return Err(e);
                        }
                        w = w2;
                    }
                },
                _ => {
                    s.update(&d, v)?;
                    if let Value::NewLine(ls) = v {
                        let gap: u128 = match ls {
                            Some(x) => *x as u128,
                            None => font.line_spacing as u128,
                        };
                        h = h + font.glyph_height as u128 + gap;
                        w = 0;
                    }
                },
            }
            i = i + 1;
        }
        Ok(())
    }

    /// Render the page: a raster of the text rectangle's size, filled with
    /// the page background, once the page's text is found to fit.
    pub fn render(&self, font: &FontMetrics) -> (r: Result<Raster, SyntaxError>)
        ensures
            ({
                let s = self.render_state;
                let w = s.text_rectangle.w;
                let h = s.text_rectangle.h;
                match color_rgb(s.page_background, s.color_scheme) {
                    None => r == Err::<Raster, SyntaxError>(SyntaxError::Other),
                    Some(c) => match layout_from(s, self.default_state, self.values@, 0, *font, 0, 0) {
                        Layout::Fits => r is Ok && r->Ok_0.spec_width() == w
                            && r->Ok_0.spec_height() == h && r->Ok_0@ == blank_page(w, h, c),
                        Layout::Fails(e) => r == Err::<Raster, SyntaxError>(e),
                        Layout::Rejected(v) => r is Err && rejection_of(v, r->Err_0),
                    },
                }
            }),
    {
        let w = self.render_state.text_rectangle.w;
        let h = self.render_state.text_rectangle.h;
        let clr = self.render_state.page_background.rgb(self.render_state.color_scheme);
        match clr {
            None => Err(SyntaxError::Other),
            Some(c) => {
                self.layout(font)?;
                let rgba: [u8; 4] = [c.0, c.1, c.2, 0];
                proof {
                    assert(w as nat * h as nat <= 65535 * 65535) by (nonlinear_arith)
                        requires
                            w <= 65535,
                            h <= 65535,
                    ;
                }
                let page = Raster::new(w as u32, h as u32, rgba);
                proof {
                    assert(page@ =~= blank_page(w, h, c));
                }
                Ok(page)
            },
        }
    }
}

impl PageSplitter {
    /// Make the next page, or `None` once all pages have been made (or an
    /// error has been returned).
    pub fn next(&mut self) -> (r: Option<Result<PageRenderer, SyntaxError>>)
        ensures
            !old(self).has_more() ==> r is None && *final(self) == *old(self),
            old(self).has_more() ==> r is Some && page_step(*old(self), *final(self), r->Some_0),
            r matches Some(Ok(_)) ==> final(self).pages_left() + 1 == old(self).pages_left(),
            r matches Some(Err(_)) ==> final(self).pages_left() == 0,
    {
        if self.more {
            let r = self.make_page();
            proof {
                lemma_page_len_bound(old(self).rest());
                lemma_breaks_after_page(old(self).rest());
            }
            Some(r)
        } else {
            None
        }
    }

    /// Make all the pages that are left, stopping at the first error.
    pub fn pages(&mut self) -> (r: Result<Vec<PageRenderer>, SyntaxError>)
        ensures
            !old(self).has_more() ==> r is Ok && r->Ok_0@.len() == 0,
            old(self).has_more() ==> match split_pages(
                old(self).render_state,
                old(self).default_state,
                old(self).rest(),
                old(self).trailing_error(),
            ) {
                Some(ps) => r is Ok && r->Ok_0@.map_values(|p: PageRenderer| page_view(p)) == ps,
                None => r is Err,
            },
    {
        if !self.more {
            return Ok(Vec::new());
        }
        let ghost whole = split_pages(
            self.render_state,
            self.default_state,
            self.values@,
            self.error,
        );
        let mut out: Vec<PageRenderer> = Vec::new();
        while self.more
            invariant
                old(self).more,
                whole == split_pages(
                    old(self).render_state,
                    old(self).default_state,
                    old(self).rest(),
                    old(self).trailing_error(),
                ),
                self.more ==> (whole is Some <==> split_pages(
                    self.render_state,
                    self.default_state,
                    self.values@,
                    self.error,
                ) is Some),
                self.more && whole is Some ==> whole->Some_0 == out@.map_values(
                    |p: PageRenderer| page_view(p),
                ) + split_pages(
                    self.render_state,
                    self.default_state,
                    self.values@,
                    self.error,
                )->Some_0,
                !self.more ==> whole is Some && whole->Some_0 == out@.map_values(
                    |p: PageRenderer| page_view(p),
                ),
            decreases self.values@.len() + if self.more {
                1int
            } else {
                0int
            },
        {
            let ghost before = *self;
            let ghost pv = out@.map_values(|p: PageRenderer| page_view(p));
            match self.make_page() {
                Ok(p) => {
                    out.push(p);
                    proof {
                        let t = before.values@;
                        let n = page_len(t);
                        lemma_page_len_bound(t);
                        assert(out@.map_values(|p: PageRenderer| page_view(p)) =~= pv.push(
                            page_view(p),
                        ));
                        if n < t.len() {
                            assert(t.skip(n as int + 1).len() < t.len());
                        }
                    }
                },
                Err(e) => {
                    return Err(e);
                },
            }
        }
        Ok(out)
    }
}

/// A message whose pages are all made has one page more than it has page
/// breaks.
pub proof fn lemma_page_count(s: RenderState, d: RenderState, t: Seq<Value>)
    requires
        split_pages(s, d, t, None) is Some,
    ensures
        split_pages(s, d, t, None)->Some_0.len() == 1 + breaks(t),
    decreases t.len(),
{
    lemma_page_len_bound(t);
    lemma_breaks_after_page(t);
    let n = page_len(t);
    if n < t.len() {
        let e = run(s, d, t.take(n as int))->Some_0;
        lemma_page_count(e, d, t.skip(n as int + 1));
    }
}

/// A message whose pages are all made has one page more than it has
/// page-break tags (in either case).
pub proof fn lemma_message_page_count(d: RenderState, ms: Seq<char>, t: Seq<Value>)
    requires
        lexemes(t) == message_lexemes(ms),
        message_error(ms) is None,
        split_pages(d, d, t, None) is Some,
    ensures
        split_pages(d, d, t, None)->Some_0.len() == 1 + page_breaks(message_lexemes(ms)),
{
    lemma_page_count(d, d, t);
    lemma_breaks_lexemes(t);
}

/// An empty message makes exactly one page, empty and in the default state.
pub proof fn lemma_empty_message(d: RenderState)
    ensures
        split_pages(d, d, Seq::empty(), None) == Some(seq![(d, Seq::<Value>::empty())]),
{
    let t = Seq::<Value>::empty();
    assert(t.take(0) =~= t);
    assert(page_state_of(d, d, d) == d);
}

/// Page background and page times set anywhere in a page hold for the whole
/// page; the text rectangle and line spacing start from their defaults on
/// each page, and every other attribute carries on from the page before.
pub proof fn lemma_page_scoped(s: RenderState, d: RenderState, t: Seq<Value>, err: Option<SyntaxError>)
    requires
        split_pages(s, d, t, err) is Some,
    ensures
        ({
            let ps = split_pages(s, d, t, err)->Some_0;
            let n = page_len(t);
            let e = run(s, d, t.take(n as int))->Some_0;
            &&& ps.len() >= 1
            &&& ps[0].0.page_background == e.page_background
            &&& ps[0].0.page_on_time_ds == e.page_on_time_ds
            &&& ps[0].0.page_off_time_ds == e.page_off_time_ds
            &&& ps[0].0.text_rectangle == d.text_rectangle
            &&& ps[0].0.line_spacing == d.line_spacing
            &&& ps[0].0 == RenderState {
                page_background: e.page_background,
                page_on_time_ds: e.page_on_time_ds,
                page_off_time_ds: e.page_off_time_ds,
                text_rectangle: d.text_rectangle,
                line_spacing: d.line_spacing,
                ..s
            }
            &&& ps.len() > 1 ==> n < t.len() && split_pages(e, d, t.skip(n as int + 1), err) is Some
                && ps.drop_first() == split_pages(e, d, t.skip(n as int + 1), err)->Some_0
        }),
{
    let ps = split_pages(s, d, t, err)->Some_0;
    let n = page_len(t);
    if n < t.len() {
        let e = run(s, d, t.take(n as int))->Some_0;
        let rest = split_pages(e, d, t.skip(n as int + 1), err)->Some_0;
        assert(ps.drop_first() =~= rest);
    }
}

/// Character and line spacing are accepted on a full-matrix sign, and
/// rejected on a character-matrix sign: the former as an unsupported tag,
/// the latter as an unsupported tag value.
pub proof fn lemma_spacing_full_matrix_only(s: RenderState, d: RenderState, n: u8)
    ensures
        full_matrix(s) ==> updated(s, d, Value::SpacingCharacter(n)) == Some(
            RenderState { char_spacing: Some(n), ..s },
        ),
        full_matrix(s) ==> updated(s, d, Value::NewLine(Some(n))) == Some(
            RenderState { line_spacing: Some(n), ..s },
        ),
        s.char_width > 0 && s.char_height > 0 ==> updated(s, d, Value::SpacingCharacter(n))
            is None,
        s.char_width > 0 && s.char_height > 0 ==> updated(s, d, Value::NewLine(Some(n))) is None,
        forall|e: SyntaxError|
            rejection_of(Value::NewLine(Some(n)), e) <==> e == SyntaxError::UnsupportedTagValue,
        forall|e: SyntaxError|
            rejection_of(Value::SpacingCharacter(n), e) <==> (e matches SyntaxError::UnsupportedTag(
                name,
            ) && name@ == "sc"@),
{
}

/// A text rectangle is accepted exactly when it lies within the default
/// text rectangle and matches the character cells and lines; it then
/// becomes the active text rectangle.
pub proof fn lemma_text_rectangle(s: RenderState, d: RenderState, r: Rectangle)
    ensures
        updated(s, d, Value::TextRectangle(r)) == if rect_contains(d.text_rectangle, r)
            && rect_aligned(s, r) {
            Some(RenderState { text_rectangle: r, ..s })
        } else {
            None
        },
        updated(s, d, Value::TextRectangle(r)) matches Some(n) ==> n.text_rectangle == r,
{
}

/// Once a prefix is rejected, every longer prefix is rejected too.
proof fn lemma_run_prefix_fails(s: RenderState, d: RenderState, t: Seq<Value>, k: int, n: int)
    requires
        0 <= k <= n <= t.len(),
        run(s, d, t.take(k)) is None,
    ensures
        run(s, d, t.take(n)) is None,
    decreases n - k,
{
    if n > k {
        lemma_run_prefix_fails(s, d, t, k, n - 1);
        assert(t.take(n).drop_last() =~= t.take(n - 1));
    }
}

} // verus!
