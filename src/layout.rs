//! Placement arithmetic of the layout: justification of text within the
//! text rectangle, and spacing between neighbouring spans and lines.
use vstd::prelude::*;
use crate::multi::{LineJustification, PageJustification, SyntaxError};
use crate::render::{char_matrix, RenderState};

verus! {

/// The rounded average of two spacings, a half rounding up.
pub open spec fn avg_spacing(a: u8, b: u8) -> int {
    (a + b + 1) / 2
}

/// Spare room, in whole cells of `cell` pixels, where `used` pixels of
/// `avail` are taken; `None` where more cells are used than are available.
pub open spec fn spare(avail: u32, used: u32, cell: u32) -> Option<u32> {
    if avail / cell >= used / cell {
        Some(((avail / cell - used / cell) * cell) as u32)
    } else {
        None
    }
}

/// `v` rounded down to a multiple of `cell`.
pub open spec fn cell_floor(v: u32, cell: u32) -> u32 {
    ((v / cell) * cell) as u32
}

/// Cell width of a state: its character width, or 1 for variable width.
pub open spec fn cell_width(s: RenderState) -> u32 {
    if char_matrix(s) {
        s.char_width as u32
    } else {
        1
    }
}

/// Cell height of a state: its character height, or 1 for variable height.
pub open spec fn cell_height(s: RenderState) -> u32 {
    if s.char_height > 0 {
        s.char_height as u32
    } else {
        1
    }
}

/// Left edge of a fragment of `w` pixels, justified within the text rectangle.
pub open spec fn left_of(s: RenderState, w: u32) -> Result<u32, SyntaxError> {
    let cw = cell_width(s);
    match spare(s.text_rectangle.w as u32, w, cw) {
        None => Err(SyntaxError::TextTooBig),
        Some(ex) => match s.just_line {
            LineJustification::Left => Ok(s.text_rectangle.x as u32),
            LineJustification::Center => Ok((s.text_rectangle.x + cell_floor(ex / 2, cw)) as u32),
            LineJustification::Right => Ok((s.text_rectangle.x + ex) as u32),
            _ => Err(SyntaxError::UnsupportedTagValue),
        },
    }
}

/// Top edge of a block of `h` pixels, justified within the text rectangle.
pub open spec fn top_of(s: RenderState, h: u32) -> Result<u32, SyntaxError> {
    let ch = cell_height(s);
    match spare(s.text_rectangle.h as u32, h, ch) {
        None => Err(SyntaxError::TextTooBig),
        Some(ex) => match s.just_page {
            PageJustification::Top => Ok(s.text_rectangle.y as u32),
            PageJustification::Middle => Ok((s.text_rectangle.y + cell_floor(ex / 2, ch)) as u32),
            PageJustification::Bottom => Ok((s.text_rectangle.y + ex) as u32),
            _ => Err(SyntaxError::UnsupportedTagValue),
        },
    }
}

/// Measures of a span of text, as the font gives them.
#[derive(Clone, Copy, Debug, PartialEq, Eq, Structural)]
pub struct SpanMetrics {
    /// Rendered width in pixels.
    pub width: u32,
    /// Character spacing in effect for the span.
    pub char_spacing: u8,
}

/// Measures of a line of text.
#[derive(Clone, Copy, Debug, PartialEq, Eq, Structural)]
pub struct LineMetrics {
    /// Height in pixels.
    pub height: u32,
    /// Line spacing of the line's font.
    pub line_spacing: u8,
    /// Line spacing given explicitly before the line, if any.
    pub explicit_spacing: Option<u8>,
}

/// Width of spans set side by side: their widths, and between two
/// neighbours the average of their character spacings.
pub open spec fn spans_width(s: Seq<SpanMetrics>) -> int
    decreases s.len(),
{
    if s.len() == 0 {
        0
    } else if s.len() == 1 {
        s[0].width as int
    } else {
        spans_width(s.drop_last()) + avg_spacing(s[s.len() - 2].char_spacing, s.last().char_spacing)
            + s.last().width
    }
}

/// Gap between a line and the line `l` that follows it: the explicit
/// spacing of `l` where given, else the average of the two line spacings.
pub open spec fn line_gap(prev: LineMetrics, l: LineMetrics) -> int {
    match l.explicit_spacing {
        Some(ls) => ls as int,
        None => avg_spacing(prev.line_spacing, l.line_spacing),
    }
}

/// Height of lines set one below another: their heights and the gaps
/// between neighbours.
pub open spec fn lines_height(s: Seq<LineMetrics>) -> int
    decreases s.len(),
{
    if s.len() == 0 {
        0
    } else if s.len() == 1 {
        s[0].height as int
    } else {
        lines_height(s.drop_last()) + line_gap(s[s.len() - 2], s.last()) + s.last().height
    }
}

/// Width of a fragment made of `spans`, or `None` where it exceeds `u32`.
pub fn fragment_width(spans: &Vec<SpanMetrics>) -> (r: Option<u32>)
    ensures
        spans_width(spans@) <= u32::MAX ==> r == Some(spans_width(spans@) as u32),
        spans_width(spans@) > u32::MAX ==> r is None,
{
    let mut w: u32 = 0;
    let mut i: usize = 0;
    while i < spans.len()
        invariant
            i <= spans@.len(),
            w == spans_width(spans@.take(i as int)),
        decreases spans@.len() - i,
    {
        let sp = spans[i];
        proof {
            assert(spans@.take(i + 1).drop_last() =~= spans@.take(i as int));
        }
        let gap: u32 = if i > 0 {
            spacing_avg(spans[i - 1].char_spacing, sp.char_spacing) as u32
        } else {
            0
        };
        if w as u64 + gap as u64 + sp.width as u64 > u32::MAX as u64 {
            proof {
                lemma_spans_width_grows(spans@, i + 1);
            }
            return None;
        }
        w = w + gap + sp.width;
        i = i + 1;
    }
    proof {
        assert(spans@.take(i as int) =~= spans@);
    }
    Some(w)
}

/// Height of a block made of `lines`, or `None` where it exceeds `u32`.
pub fn block_height(lines: &Vec<LineMetrics>) -> (r: Option<u32>)
    ensures
        lines_height(lines@) <= u32::MAX ==> r == Some(lines_height(lines@) as u32),
        lines_height(lines@) > u32::MAX ==> r is None,
{
    let mut h: u32 = 0;
    let mut i: usize = 0;
    while i < lines.len()
        invariant
            i <= lines@.len(),
            h == lines_height(lines@.take(i as int)),
        decreases lines@.len() - i,
    {
        let l = lines[i];
        proof {
            assert(lines@.take(i + 1).drop_last() =~= lines@.take(i as int));
        }
        let gap: u32 = if i > 0 {
            match l.explicit_spacing {
                Some(ls) => ls as u32,
                None => spacing_avg(lines[i - 1].line_spacing, l.line_spacing) as u32,
            }
        } else {
            0
        };
        if h as u64 + gap as u64 + l.height as u64 > u32::MAX as u64 {
            proof {
                lemma_lines_height_grows(lines@, i + 1);
            }
            return None;
        }
        h = h + gap + l.height;
        i = i + 1;
    }
    proof {
        assert(lines@.take(i as int) =~= lines@);
    }
    Some(h)
}

/// Left edge of each span of a fragment whose left edge is `left`, or
/// `None` where one exceeds `u32`.
pub fn span_lefts(left: u32, spans: &Vec<SpanMetrics>) -> (r: Option<Vec<u32>>)
    ensures
        left + spans_width(spans@) <= u32::MAX ==> r is Some,
        left + spans_width(spans@) > u32::MAX ==> r is None,
        r matches Some(xs) ==> xs@.len() == spans@.len() && forall|i: int|
            0 <= i < spans@.len() ==> #[trigger] xs@[i] == left + spans_width(spans@.take(i + 1))
                - spans@[i].width,
{
    let mut xs: Vec<u32> = Vec::new();
    let mut x: u32 = left;
    let mut i: usize = 0;
    while i < spans.len()
        invariant
            i <= spans@.len(),
            xs@.len() == i,
            x == left + spans_width(spans@.take(i as int)),
            forall|j: int|
                0 <= j < i ==> #[trigger] xs@[j] == left + spans_width(spans@.take(j + 1))
                    - spans@[j].width,
        decreases spans@.len() - i,
    {
        let sp = spans[i];
        proof {
            assert(spans@.take(i + 1).drop_last() =~= spans@.take(i as int));
        }
        let gap: u32 = if i > 0 {
            spacing_avg(spans[i - 1].char_spacing, sp.char_spacing) as u32
        } else {
            0
        };
        if x as u64 + gap as u64 + sp.width as u64 > u32::MAX as u64 {
            proof {
                lemma_spans_width_grows(spans@, i + 1);
            }
            return None;
        }
        xs.push(x + gap);
        x = x + gap + sp.width;
        i = i + 1;
    }
    proof {
        assert(spans@.take(i as int) =~= spans@);
    }
    Some(xs)
}

/// Baseline of each line of a block whose top edge is `top`: the bottom of
/// the line, below the lines and gaps before it.  `None` where one exceeds
/// `u32`.
pub fn line_baselines(top: u32, lines: &Vec<LineMetrics>) -> (r: Option<Vec<u32>>)
    ensures
        top + lines_height(lines@) <= u32::MAX ==> r is Some,
        top + lines_height(lines@) > u32::MAX ==> r is None,
        r matches Some(ys) ==> ys@.len() == lines@.len() && forall|i: int|
            0 <= i < lines@.len() ==> #[trigger] ys@[i] == top + lines_height(lines@.take(i + 1)),
{
    let mut ys: Vec<u32> = Vec::new();
    let mut y: u32 = top;
    let mut i: usize = 0;
    while i < lines.len()
        invariant
            i <= lines@.len(),
            ys@.len() == i,
            y == top + lines_height(lines@.take(i as int)),
            forall|j: int|
                0 <= j < i ==> #[trigger] ys@[j] == top + lines_height(lines@.take(j + 1)),
        decreases lines@.len() - i,
    {
        let l = lines[i];
        proof {
            assert(lines@.take(i + 1).drop_last() =~= lines@.take(i as int));
        }
        let gap: u32 = if i > 0 {
            match l.explicit_spacing {
                Some(ls) => ls as u32,
                None => spacing_avg(lines[i - 1].line_spacing, l.line_spacing) as u32,
            }
        } else {
            0
        };
        if y as u64 + gap as u64 + l.height as u64 > u32::MAX as u64 {
            proof {
                lemma_lines_height_grows(lines@, i + 1);
            }
            return None;
        }
        y = y + gap + l.height;
        ys.push(y);
        i = i + 1;
    }
    proof {
        assert(lines@.take(i as int) =~= lines@);
    }
    Some(ys)
}

proof fn lemma_spans_width_grows(s: Seq<SpanMetrics>, k: int)
    requires
        0 <= k <= s.len(),
    ensures
        spans_width(s.take(k)) <= spans_width(s),
    decreases s.len() - k,
{
    if k < s.len() {
        lemma_spans_width_grows(s, k + 1);
        if k > 0 {
            assert(s.take(k + 1).drop_last() =~= s.take(k));
        }
    } else {
        assert(s.take(k) =~= s);
    }
}

proof fn lemma_lines_height_grows(s: Seq<LineMetrics>, k: int)
    requires
        0 <= k <= s.len(),
    ensures
        lines_height(s.take(k)) <= lines_height(s),
    decreases s.len() - k,
{
    if k < s.len() {
        lemma_lines_height_grows(s, k + 1);
        if k > 0 {
            assert(s.take(k + 1).drop_last() =~= s.take(k));
        }
    } else {
        assert(s.take(k) =~= s);
    }
}

/// Spacing between two neighbours whose own spacings are `a` and `b`: their
/// average, rounded to the nearest pixel, a half rounding up.
pub fn spacing_avg(a: u8, b: u8) -> (r: u8)
    ensures
        r == avg_spacing(a, b),
{
    ((a as u16 + b as u16 + 1) / 2) as u8
}

/// Spare room, in whole cells, where `used` pixels of `avail` are taken.
pub fn extra_space(avail: u32, used: u32, cell: u32) -> (r: Result<u32, SyntaxError>)
    requires
        cell > 0,
    ensures
        match spare(avail, used, cell) {
            Some(ex) => r == Ok::<u32, SyntaxError>(ex),
            None => r == Err::<u32, SyntaxError>(SyntaxError::TextTooBig),
        },
        r matches Ok(ex) ==> ex <= avail,
{
    let w = avail / cell;
    let u = used / cell;
    if w >= u {
        proof {
            assert((w - u) * cell <= w * cell) by (nonlinear_arith)
                requires
                    w >= u,
            ;
            assert(w * cell <= avail) by (nonlinear_arith)
                requires
                    w == avail / cell,
                    cell > 0,
            ;
        }
        Ok((w - u) * cell)
    } else {
        Err(SyntaxError::TextTooBig)
    }
}

fn floor_to_cell(v: u32, cell: u32) -> (r: u32)
    requires
        cell > 0,
    ensures
        r == cell_floor(v, cell),
        r <= v,
{
    proof {
        assert((v / cell) * cell <= v) by (nonlinear_arith)
            requires
                cell > 0,
        ;
    }
    (v / cell) * cell
}

/// Left edge of a fragment of text `w` pixels wide, following the line
/// justification of state `rs`.
pub fn fragment_left(rs: &RenderState, w: u32) -> (r: Result<u32, SyntaxError>)
    ensures
        r == left_of(*rs, w),
{
    let cw = rs.char_width();
    let ex = extra_space(rs.text_rectangle.w as u32, w, cw)?;
    let x = rs.text_rectangle.x as u32;
    match rs.just_line {
        LineJustification::Left => Ok(x),
        LineJustification::Center => Ok(x + floor_to_cell(ex / 2, cw)),
        LineJustification::Right => Ok(x + ex),
        _ => Err(SyntaxError::UnsupportedTagValue),
    }
}

/// Top edge of a block of text `h` pixels high, following the page
/// justification of state `rs`.
pub fn block_top(rs: &RenderState, h: u32) -> (r: Result<u32, SyntaxError>)
    ensures
        r == top_of(*rs, h),
{
    let ch = rs.char_height();
    let ex = extra_space(rs.text_rectangle.h as u32, h, ch)?;
    let y = rs.text_rectangle.y as u32;
    match rs.just_page {
        PageJustification::Top => Ok(y),
        PageJustification::Middle => Ok(y + floor_to_cell(ex / 2, ch)),
        PageJustification::Bottom => Ok(y + ex),
        _ => Err(SyntaxError::UnsupportedTagValue),
    }
}

} // verus!
