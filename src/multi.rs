//! The vocabulary of MULTI messages: colors, justifications, rectangles, tag
//! values and syntax errors.
use vstd::prelude::*;
use vstd::string::*;

verus! {

/// Color scheme of a sign.
#[derive(Clone, Copy, Debug, PartialEq, Eq, Structural)]
pub enum ColorScheme {
    Monochrome1Bit,
    Monochrome8Bit,
    ColorClassic,
    Color24Bit,
}

/// A color as written in a tag: a legacy (scheme dependent) value, or an
/// explicit red / green / blue triple.
#[derive(Clone, Copy, Debug, PartialEq, Eq, Structural)]
pub enum Color {
    Legacy(u8),
    RGB(u8, u8, u8),
}

/// Vertical justification of text within the text rectangle.
#[derive(Clone, Copy, Debug, PartialEq, Eq, Structural)]
pub enum PageJustification {
    Other,
    Top,
    Middle,
    Bottom,
}

/// Horizontal justification of text within a line.
#[derive(Clone, Copy, Debug, PartialEq, Eq, Structural)]
pub enum LineJustification {
    Other,
    Left,
    Center,
    Right,
    Full,
}

/// A rectangle on the sign, with a 1-based origin.
#[derive(Clone, Copy, Debug, PartialEq, Eq, Structural)]
pub struct Rectangle {
    pub x: u16,
    pub y: u16,
    pub w: u16,
    pub h: u16,
}

/// Errors found while interpreting a message.
#[derive(Clone, Debug, PartialEq, Eq)]
pub enum SyntaxError {
    Other,
    UnsupportedTag(String),
    UnsupportedTagValue,
    TextTooBig,
}

/// One element of a message: a tag with its parameters, or a run of text.
#[derive(Clone, Debug, PartialEq, Eq)]
pub enum Value {
    ColorBackground(Option<Color>),
    ColorForeground(Option<Color>),
    Font(Option<(u8, Option<u16>)>),
    JustificationLine(Option<LineJustification>),
    JustificationPage(Option<PageJustification>),
    NewLine(Option<u8>),
    NewPage,
    PageBackground(Option<Color>),
    PageTime(Option<u8>, Option<u8>),
    SpacingCharacter(u8),
    SpacingCharacterEnd,
    TextRectangle(Rectangle),
    Text(String),
    /// A well-formed tag that this renderer does not implement (flashing,
    /// hexadecimal characters, fields, graphics, manufacturer specific...),
    /// holding the tag as written, without its brackets.
    Unsupported(String),
}

/// Does rectangle `outer` hold rectangle `inner`?
pub open spec fn rect_contains(outer: Rectangle, inner: Rectangle) -> bool {
    &&& outer.x <= inner.x
    &&& inner.x + inner.w <= outer.x + outer.w
    &&& outer.y <= inner.y
    &&& inner.y + inner.h <= outer.y + outer.h
}

impl Rectangle {
    /// Create a rectangle.
    pub fn new(x: u16, y: u16, w: u16, h: u16) -> (r: Rectangle)
        ensures
            r == (Rectangle { x, y, w, h }),
    {
        Rectangle { x, y, w, h }
    }

    /// Check whether another rectangle lies within this one.
    pub fn contains(&self, r: &Rectangle) -> (b: bool)
        ensures
            b == rect_contains(*self, *r),
    {
        let sx = self.x as u32;
        let sy = self.y as u32;
        let rx = r.x as u32;
        let ry = r.y as u32;
        sx <= rx && rx + r.w as u32 <= sx + self.w as u32 && sy <= ry && ry + r.h as u32
            <= sy + self.h as u32
    }
}

/// The red / green / blue triple of a classic color number.
pub open spec fn classic_rgb(v: u8) -> Option<(u8, u8, u8)> {
    if v == 0 {
        Some((0, 0, 0))
    } else if v == 1 {
        Some((255, 0, 0))
    } else if v == 2 {
        Some((255, 255, 0))
    } else if v == 3 {
        Some((0, 255, 0))
    } else if v == 4 {
        Some((0, 255, 255))
    } else if v == 5 {
        Some((0, 0, 255))
    } else if v == 6 {
        Some((255, 0, 255))
    } else if v == 7 {
        Some((255, 255, 255))
    } else if v == 8 {
        Some((255, 165, 0))
    } else if v == 9 {
        Some((255, 180, 0))
    } else {
        None
    }
}

/// The red / green / blue triple of a color under a color scheme, or `None`
/// where the scheme cannot show that color.
pub open spec fn color_rgb(c: Color, scheme: ColorScheme) -> Option<(u8, u8, u8)> {
    match (c, scheme) {
        (Color::Legacy(0), ColorScheme::Monochrome1Bit) => Some((0, 0, 0)),
        (Color::Legacy(1), ColorScheme::Monochrome1Bit) => Some((255, 255, 255)),
        (Color::Legacy(v), ColorScheme::Monochrome8Bit) => Some((v, v, v)),
        (Color::Legacy(v), ColorScheme::ColorClassic) => classic_rgb(v),
        (Color::Legacy(v), ColorScheme::Color24Bit) => classic_rgb(v),
        (Color::RGB(r, g, b), ColorScheme::Color24Bit) => Some((r, g, b)),
        _ => None,
    }
}

fn classic(v: u8) -> (r: Option<(u8, u8, u8)>)
    ensures
        r == classic_rgb(v),
{
    match v {
        0 => Some((0, 0, 0)),
        1 => Some((255, 0, 0)),
        2 => Some((255, 255, 0)),
        3 => Some((0, 255, 0)),
        4 => Some((0, 255, 255)),
        5 => Some((0, 0, 255)),
        6 => Some((255, 0, 255)),
        7 => Some((255, 255, 255)),
        8 => Some((255, 165, 0)),
        9 => Some((255, 180, 0)),
        _ => None,
    }
}

impl Color {
    /// Resolve the color to red / green / blue under a color scheme.
    pub fn rgb(&self, scheme: ColorScheme) -> (r: Option<(u8, u8, u8)>)
        ensures
            r == color_rgb(*self, scheme),
    {
        match (*self, scheme) {
            (Color::Legacy(0), ColorScheme::Monochrome1Bit) => Some((0, 0, 0)),
            (Color::Legacy(1), ColorScheme::Monochrome1Bit) => Some((255, 255, 255)),
            (Color::Legacy(v), ColorScheme::Monochrome8Bit) => Some((v, v, v)),
            (Color::Legacy(v), ColorScheme::ColorClassic) => classic(v),
            (Color::Legacy(v), ColorScheme::Color24Bit) => classic(v),
            (Color::RGB(r, g, b), ColorScheme::Color24Bit) => Some((r, g, b)),
            _ => None,
        }
    }
}


/// Number of page breaks among the values.
pub open spec fn breaks(t: Seq<Value>) -> nat
    decreases t.len(),
{
    if t.len() == 0 {
        0
    } else {
        (if t[0] is NewPage {
            1nat
        } else {
            0nat
        }) + breaks(t.drop_first())
    }
}

/// Index of the first `c` in `s` at or after `j`, or the length of `s`.
pub open spec fn index_from(s: Seq<char>, j: int, c: char) -> int
    decreases s.len() - j,
{
    if j < 0 || j >= s.len() {
        s.len() as int
    } else if s[j] == c {
        j
    } else {
        index_from(s, j + 1, c)
    }
}

/// Index of the first `o` or `O` in `s` at or after `j`, or the length of `s`.
pub open spec fn index_o(s: Seq<char>, j: int) -> int
    decreases s.len() - j,
{
    if j < 0 || j >= s.len() {
        s.len() as int
    } else if lower(s[j]) == 'o' {
        j
    } else {
        index_o(s, j + 1)
    }
}

proof fn lemma_index_from(s: Seq<char>, j: int, r: int, c: char)
    requires
        0 <= j <= r <= s.len(),
        forall|k: int| j <= k < r ==> s[k] != c,
        r < s.len() ==> s[r] == c,
    ensures
        index_from(s, j, c) == r,
    decreases r - j,
{
    if j < r {
        lemma_index_from(s, j + 1, r, c);
    }
}

proof fn lemma_index_o(s: Seq<char>, j: int, r: int)
    requires
        0 <= j <= r <= s.len(),
        forall|k: int| j <= k < r ==> lower(s[k]) != 'o',
        r < s.len() ==> lower(s[r]) == 'o',
    ensures
        index_o(s, j) == r,
    decreases r - j,
{
    if j < r {
        lemma_index_o(s, j + 1, r);
    }
}

/// A value as a message spells it: the value of an implemented tag, or the
/// characters of a run of text or of an unimplemented tag.
pub enum Lexeme {
    Tag(Value),
    Text(Seq<char>),
    Unsupported(Seq<char>),
}

/// How a value reads as a lexeme.
pub open spec fn lexeme_of(v: Value) -> Lexeme {
    match v {
        Value::Text(t) => Lexeme::Text(t@),
        Value::Unsupported(t) => Lexeme::Unsupported(t@),
        _ => Lexeme::Tag(v),
    }
}

/// How a sequence of values reads as lexemes.
pub open spec fn lexemes(t: Seq<Value>) -> Seq<Lexeme> {
    t.map_values(|v: Value| lexeme_of(v))
}

/// Number of page-break tags among lexemes.
pub open spec fn page_breaks(l: Seq<Lexeme>) -> nat
    decreases l.len(),
{
    if l.len() == 0 {
        0
    } else {
        (if l[0] == Lexeme::Tag(Value::NewPage) {
            1nat
        } else {
            0nat
        }) + page_breaks(l.drop_first())
    }
}

/// Values hold as many page breaks as the lexemes they read as.
pub proof fn lemma_breaks_lexemes(t: Seq<Value>)
    ensures
        breaks(t) == page_breaks(lexemes(t)),
    decreases t.len(),
{
    if t.len() > 0 {
        assert(lexemes(t).drop_first() =~= lexemes(t.drop_first()));
        lemma_breaks_lexemes(t.drop_first());
    }
}

/// ASCII lower case of a character.
pub open spec fn lower(c: char) -> char {
    if 'A' <= c <= 'Z' {
        (((c as u32) + 32) as u8) as char
    } else {
        c
    }
}

/// Is `c` a decimal digit?
pub open spec fn is_digit(c: char) -> bool {
    '0' <= c <= '9'
}

/// The value of a string of decimal digits.
pub open spec fn dec_value(s: Seq<char>) -> nat
    decreases s.len(),
{
    if s.len() == 0 {
        0
    } else {
        dec_value(s.drop_last()) * 10 + (s.last() as nat - '0' as nat) as nat
    }
}

/// The value of a digit of base 16 (either case).
pub open spec fn hex_digit(c: char) -> Option<nat> {
    if '0' <= c <= '9' {
        Some((c as nat - '0' as nat) as nat)
    } else if 'a' <= c <= 'f' {
        Some((c as nat - 'a' as nat + 10) as nat)
    } else if 'A' <= c <= 'F' {
        Some((c as nat - 'A' as nat + 10) as nat)
    } else {
        None
    }
}

/// The value of a string of digits of base 16, `None` if one is no digit.
pub open spec fn hex_value(s: Seq<char>) -> Option<nat>
    decreases s.len(),
{
    if s.len() == 0 {
        Some(0)
    } else {
        match (hex_value(s.drop_last()), hex_digit(s.last())) {
            (Some(v), Some(x)) => Some(v * 16 + x),
            _ => None,
        }
    }
}

/// The number written in `s` in decimal, where it is one of at most `max`.
pub open spec fn dec_number(s: Seq<char>, max: u32) -> Option<u32> {
    if 0 < s.len() && (forall|i: int| 0 <= i < s.len() ==> is_digit(#[trigger] s[i]))
        && dec_value(s) <= max {
        Some(dec_value(s) as u32)
    } else {
        None
    }
}

fn lower_char(c: char) -> (r: char)
    ensures
        r == lower(c),
{
    if 'A' <= c && c <= 'Z' {
        (((c as u32) + 32) as u8) as char
    } else {
        c
    }
}

/// The character at `i`, in lower case.
fn lc(ms: &str, i: usize) -> (r: char)
    requires
        i < ms@.len(),
    ensures
        r == lower(ms@[i as int]),
{
    lower_char(ms.get_char(i))
}

/// Parse the decimal number in characters `from..to` of `ms`.
fn parse_dec(ms: &str, from: usize, to: usize, max: u32) -> (r: Option<u32>)
    requires
        from <= to <= ms@.len(),
    ensures
        r == dec_number(ms@.subrange(from as int, to as int), max),
{
    let ghost s = ms@.subrange(from as int, to as int);
    if from == to {
        return None;
    }
    let mut v: u32 = 0;
    let mut i: usize = from;
    while i < to
        invariant
            from <= i <= to <= ms@.len(),
            s == ms@.subrange(from as int, to as int),
            forall|k: int| 0 <= k < i - from ==> is_digit(#[trigger] s[k]),
            v == dec_value(s.subrange(0, i - from)),
            v <= max,
        decreases to - i,
    {
        let c = ms.get_char(i);
        if c < '0' || c > '9' {
            proof {
                assert(s[i - from] == c);
            }
            return None;
        }
        let d: u32 = (c as u32) - ('0' as u32);
        proof {
            let p = s.subrange(0, i + 1 - from);
            assert(p.drop_last() =~= s.subrange(0, i - from));
            assert(p.last() == c);
        }
        if d > max || v > (max - d) / 10 {
            proof {
                if d <= max {
                    assert(v * 10 + d > max) by (nonlinear_arith)
                        requires
                            v > (max - d) / 10,
                            d <= max,
                    ;
                }
                if forall|k: int| 0 <= k < s.len() ==> is_digit(#[trigger] s[k]) {
                    lemma_dec_prefix_grows(s, (i + 1 - from) as int);
                }
            }
            return None;
        }
        proof {
            assert(v * 10 + d <= max) by (nonlinear_arith)
                requires
                    v <= (max - d) / 10,
                    d <= max,
            ;
        }
        v = v * 10 + d;
        i = i + 1;
    }
    proof {
        assert(s.subrange(0, to - from) =~= s);
    }
    Some(v)
}

/// Parse the number of base 16, of one to four digits, in characters
/// `from..to` of `ms`.
fn parse_hex(ms: &str, from: usize, to: usize) -> (r: Option<u16>)
    requires
        from <= to <= ms@.len(),
    ensures
        ({
            let s = ms@.subrange(from as int, to as int);
            r == if 0 < s.len() <= 4 && hex_value(s) is Some {
                Some(hex_value(s)->Some_0 as u16)
            } else {
                None
            }
        }),
{
    let ghost s = ms@.subrange(from as int, to as int);
    if from == to || to - from > 4 {
        return None;
    }
    let mut v: u32 = 0;
    let mut i: usize = from;
    proof {
        assert(s.subrange(0, 0) =~= Seq::<char>::empty());
    }
    while i < to
        invariant
            from <= i <= to <= ms@.len(),
            to - from <= 4,
            s == ms@.subrange(from as int, to as int),
            hex_value(s.subrange(0, i - from)) == Some(v as nat),
            i - from == 0 ==> v == 0,
            i - from <= 1 ==> v <= 0xf,
            i - from <= 2 ==> v <= 0xff,
            i - from <= 3 ==> v <= 0xfff,
            v <= 0xffff,
        decreases to - i,
    {
        let c = ms.get_char(i);
        let x: u32 = if '0' <= c && c <= '9' {
            (c as u32) - ('0' as u32)
        } else if 'a' <= c && c <= 'f' {
            (c as u32) - ('a' as u32) + 10
        } else if 'A' <= c && c <= 'F' {
            (c as u32) - ('A' as u32) + 10
        } else {
            proof {
                let p = s.subrange(0, i + 1 - from);
                assert(p.drop_last() =~= s.subrange(0, i - from));
                assert(p.last() == c);
                lemma_hex_prefix_none(s, (i + 1 - from) as int);
            }
            return None;
        };
        proof {
            let p = s.subrange(0, i + 1 - from);
            assert(p.drop_last() =~= s.subrange(0, i - from));
            assert(p.last() == c);
        }
        v = v * 16 + x;
        i = i + 1;
    }
    proof {
        assert(s.subrange(0, to - from) =~= s);
    }
    Some(v as u16)
}

/// Once a prefix holds a character that is no digit, so does the whole.
proof fn lemma_hex_prefix_none(s: Seq<char>, k: int)
    requires
        0 <= k <= s.len(),
        hex_value(s.subrange(0, k)) is None,
    ensures
        hex_value(s) is None,
    decreases s.len() - k,
{
    if k < s.len() {
        assert(s.subrange(0, k + 1).drop_last() =~= s.subrange(0, k));
        lemma_hex_prefix_none(s, k + 1);
    } else {
        assert(s.subrange(0, k) =~= s);
    }
}

/// Index of the first `c` in characters `from..to` of `ms`, or `to`.
fn find_char(ms: &str, from: usize, to: usize, c: char) -> (r: usize)
    requires
        from <= to <= ms@.len(),
    ensures
        from <= r <= to,
        forall|k: int| from <= k < r ==> ms@[k] != c,
        r < to ==> ms@[r as int] == c,
{
    let mut i: usize = from;
    while i < to
        invariant
            from <= i <= to <= ms@.len(),
            forall|k: int| from <= k < i ==> ms@[k] != c,
        decreases to - i,
    {
        if ms.get_char(i) == c {
            return i;
        }
        i = i + 1;
    }
    i
}

/// An optional color: nothing, a legacy value, or `r,g,b`.
pub open spec fn color_spec(s: Seq<char>) -> Result<Option<Color>, SyntaxError> {
    let n = s.len() as int;
    let c1 = index_from(s, 0, ',');
    let c2 = index_from(s, c1 + 1, ',');
    if n == 0 {
        Ok(None)
    } else if c1 >= n {
        match dec_number(s, 255) {
            Some(v) => Ok(Some(Color::Legacy(v as u8))),
            None => Err(SyntaxError::UnsupportedTagValue),
        }
    } else if c2 >= n {
        Err(SyntaxError::UnsupportedTagValue)
    } else {
        match (
            dec_number(s.subrange(0, c1), 255),
            dec_number(s.subrange(c1 + 1, c2), 255),
            dec_number(s.subrange(c2 + 1, n), 255),
        ) {
            (Some(r), Some(g), Some(b)) => Ok(Some(Color::RGB(r as u8, g as u8, b as u8))),
            _ => Err(SyntaxError::UnsupportedTagValue),
        }
    }
}

/// An optional decimal number of at most `max`.
pub open spec fn opt_spec(s: Seq<char>, max: u32) -> Result<Option<u32>, SyntaxError> {
    if s.len() == 0 {
        Ok(None)
    } else {
        match dec_number(s, max) {
            Some(v) => Ok(Some(v)),
            None => Err(SyntaxError::UnsupportedTagValue),
        }
    }
}

/// A number of base 16 of one to four digits.
pub open spec fn hex_spec(s: Seq<char>) -> Option<u16> {
    if 0 < s.len() <= 4 && hex_value(s) is Some {
        Some(hex_value(s)->Some_0 as u16)
    } else {
        None
    }
}

/// Does tag `b` start with `x` and `y`, in either case?
pub open spec fn starts(b: Seq<char>, x: char, y: char) -> bool {
    b.len() >= 2 && lower(b[0]) == x && lower(b[1]) == y
}

/// A number narrowed to a byte.
pub open spec fn narrow(v: Option<u32>) -> Option<u8> {
    match v {
        Some(t) => Some(t as u8),
        None => None,
    }
}

/// What the tag `b` (written between its brackets) stands for.  Tag names
/// are read in either case; a tag that is not implemented here stands for
/// itself.
pub open spec fn tag_value(b: Seq<char>) -> Result<Lexeme, SyntaxError> {
    let n = b.len() as int;
    let rest = b.subrange(2, n);
    if n == 3 && lower(b[0]) == '/' && lower(b[1]) == 's' && lower(b[2]) == 'c' {
        Ok(Lexeme::Tag(Value::SpacingCharacterEnd))
    } else if starts(b, 'n', 'p') {
        if n == 2 {
            Ok(Lexeme::Tag(Value::NewPage))
        } else {
            Ok(Lexeme::Unsupported(b))
        }
    } else if starts(b, 'c', 'b') {
        match color_spec(rest) {
            Ok(c) => Ok(Lexeme::Tag(Value::ColorBackground(c))),
            Err(e) => Err(e),
        }
    } else if starts(b, 'c', 'f') {
        match color_spec(rest) {
            Ok(c) => Ok(Lexeme::Tag(Value::ColorForeground(c))),
            Err(e) => Err(e),
        }
    } else if starts(b, 'p', 'b') {
        match color_spec(rest) {
            Ok(c) => Ok(Lexeme::Tag(Value::PageBackground(c))),
            Err(e) => Err(e),
        }
    } else if starts(b, 'f', 'o') {
        let comma = index_from(b, 2, ',');
        if n == 2 {
            Ok(Lexeme::Tag(Value::Font(None)))
        } else {
            match dec_number(b.subrange(2, comma), 255) {
                None => Err(SyntaxError::UnsupportedTagValue),
                Some(num) => if comma >= n {
                    Ok(Lexeme::Tag(Value::Font(Some((num as u8, None)))))
                } else {
                    match hex_spec(b.subrange(comma + 1, n)) {
                        Some(v) => Ok(Lexeme::Tag(Value::Font(Some((num as u8, Some(v)))))),
                        None => Err(SyntaxError::UnsupportedTagValue),
                    }
                },
            }
        }
    } else if starts(b, 'j', 'l') {
        match opt_spec(rest, 255) {
            Err(e) => Err(e),
            Ok(None) => Ok(Lexeme::Tag(Value::JustificationLine(None))),
            Ok(Some(v)) => if v == 1 {
                Ok(Lexeme::Tag(Value::JustificationLine(Some(LineJustification::Other))))
            } else if v == 2 {
                Ok(Lexeme::Tag(Value::JustificationLine(Some(LineJustification::Left))))
            } else if v == 3 {
                Ok(Lexeme::Tag(Value::JustificationLine(Some(LineJustification::Center))))
            } else if v == 4 {
                Ok(Lexeme::Tag(Value::JustificationLine(Some(LineJustification::Right))))
            } else if v == 5 {
                Ok(Lexeme::Tag(Value::JustificationLine(Some(LineJustification::Full))))
            } else {
                Err(SyntaxError::UnsupportedTagValue)
            },
        }
    } else if starts(b, 'j', 'p') {
        match opt_spec(rest, 255) {
            Err(e) => Err(e),
            Ok(None) => Ok(Lexeme::Tag(Value::JustificationPage(None))),
            Ok(Some(v)) => if v == 1 {
                Ok(Lexeme::Tag(Value::JustificationPage(Some(PageJustification::Other))))
            } else if v == 2 {
                Ok(Lexeme::Tag(Value::JustificationPage(Some(PageJustification::Top))))
            } else if v == 3 {
                Ok(Lexeme::Tag(Value::JustificationPage(Some(PageJustification::Middle))))
            } else if v == 4 {
                Ok(Lexeme::Tag(Value::JustificationPage(Some(PageJustification::Bottom))))
            } else {
                Err(SyntaxError::UnsupportedTagValue)
            },
        }
    } else if starts(b, 'n', 'l') {
        match opt_spec(rest, 255) {
            Err(e) => Err(e),
            Ok(v) => Ok(Lexeme::Tag(Value::NewLine(narrow(v)))),
        }
    } else if starts(b, 'p', 't') {
        let o = index_o(b, 2);
        match opt_spec(b.subrange(2, o), 255) {
            Err(e) => Err(e),
            Ok(on) => match if o < n {
                opt_spec(b.subrange(o + 1, n), 255)
            } else {
                Ok(None)
            } {
                Err(e) => Err(e),
                Ok(off) => Ok(Lexeme::Tag(Value::PageTime(narrow(on), narrow(off)))),
            },
        }
    } else if starts(b, 's', 'c') {
        match dec_number(rest, 255) {
            Some(v) => Ok(Lexeme::Tag(Value::SpacingCharacter(v as u8))),
            None => Err(SyntaxError::UnsupportedTagValue),
        }
    } else if starts(b, 't', 'r') {
        let c1 = index_from(b, 2, ',');
        let c2 = index_from(b, c1 + 1, ',');
        let c3 = index_from(b, c2 + 1, ',');
        if c1 >= n || c2 >= n || c3 >= n {
            Err(SyntaxError::UnsupportedTagValue)
        } else {
            match (
                dec_number(b.subrange(2, c1), 65535),
                dec_number(b.subrange(c1 + 1, c2), 65535),
                dec_number(b.subrange(c2 + 1, c3), 65535),
                dec_number(b.subrange(c3 + 1, n), 65535),
            ) {
                (Some(x), Some(y), Some(w), Some(h)) => Ok(
                    Lexeme::Tag(
                        Value::TextRectangle(
                            Rectangle { x: x as u16, y: y as u16, w: w as u16, h: h as u16 },
                        ),
                    ),
                ),
                _ => Err(SyntaxError::UnsupportedTagValue),
            }
        }
    } else {
        Ok(Lexeme::Unsupported(b))
    }
}

/// A run of text from `from` to `to`, if it is not empty.
pub open spec fn text_lexemes(s: Seq<char>, from: int, to: int) -> Seq<Lexeme> {
    if from < to {
        seq![Lexeme::Text(s.subrange(from, to))]
    } else {
        seq![]
    }
}

/// The lexemes of message `s` from index `i` on, where the text being read
/// started at `start`, and the error where the message is malformed.  A
/// doubled bracket stands for one bracket of text.
pub open spec fn lex_from(s: Seq<char>, i: int, start: int) -> (Seq<Lexeme>, Option<SyntaxError>)
    decreases s.len() - i,
{
    if i < 0 || i >= s.len() {
        (text_lexemes(s, start, s.len() as int), None)
    } else if (s[i] == '[' || s[i] == ']') && i + 1 < s.len() && s[i + 1] == s[i] {
        let r = lex_from(s, i + 2, i + 2);
        (text_lexemes(s, start, i + 1) + r.0, r.1)
    } else if s[i] == ']' {
        (text_lexemes(s, start, i), Some(SyntaxError::Other))
    } else if s[i] == '[' {
        let close = index_from(s, i + 1, ']');
        if i < close < s.len() {
            match tag_value(s.subrange(i + 1, close)) {
                Ok(l) => {
                    let r = lex_from(s, close + 1, close + 1);
                    (text_lexemes(s, start, i).push(l) + r.0, r.1)
                },
                Err(e) => (text_lexemes(s, start, i), Some(e)),
            }
        } else {
            (text_lexemes(s, start, i), Some(SyntaxError::Other))
        }
    } else {
        lex_from(s, i + 1, start)
    }
}

/// The lexemes of a message, up to the first fault.
pub open spec fn message_lexemes(s: Seq<char>) -> Seq<Lexeme> {
    lex_from(s, 0, 0).0
}

/// The error of a malformed message, `None` for a well-formed one.
pub open spec fn message_error(s: Seq<char>) -> Option<SyntaxError> {
    lex_from(s, 0, 0).1
}

/// Parse an optional color: nothing, a legacy value, or `r,g,b`.
fn parse_color(ms: &str, from: usize) -> (r: Result<Option<Color>, SyntaxError>)
    requires
        from <= ms@.len(),
    ensures
        r == color_spec(ms@.subrange(from as int, ms@.len() as int)),
{
    let ghost s = ms@.subrange(from as int, ms@.len() as int);
    let to = ms.unicode_len();
    if from == to {
        return Ok(None);
    }
    let c1 = find_char(ms, from, to, ',');
    proof {
        lemma_index_from_shift(ms@, from as int, 0, c1 as int, ',');
    }
    if c1 == to {
        return match parse_dec(ms, from, to, 255) {
            Some(v) => Ok(Some(Color::Legacy(v as u8))),
            None => Err(SyntaxError::UnsupportedTagValue),
        };
    }
    let c2 = find_char(ms, c1 + 1, to, ',');
    proof {
        lemma_index_from_shift(ms@, from as int, c1 + 1 - from, c2 as int, ',');
    }
    if c2 == to {
        return Err(SyntaxError::UnsupportedTagValue);
    }
    let r = parse_dec(ms, from, c1, 255);
    let g = parse_dec(ms, c1 + 1, c2, 255);
    let b = parse_dec(ms, c2 + 1, to, 255);
    proof {
        assert(s.subrange(0, c1 - from) =~= ms@.subrange(from as int, c1 as int));
        assert(s.subrange(c1 + 1 - from, c2 - from) =~= ms@.subrange(c1 + 1, c2 as int));
        assert(s.subrange(c2 + 1 - from, to - from) =~= ms@.subrange(c2 + 1, to as int));
    }
    match (r, g, b) {
        (Some(r), Some(g), Some(b)) => Ok(Some(Color::RGB(r as u8, g as u8, b as u8))),
        _ => Err(SyntaxError::UnsupportedTagValue),
    }
}

/// `find_char` over `ms` from `from + j` is `index_from` over the tail of `ms`
/// from `from`, from `j`.
proof fn lemma_index_from_shift(ms: Seq<char>, from: int, j: int, r: int, c: char)
    requires
        0 <= from <= ms.len(),
        0 <= j,
        from + j <= r <= ms.len(),
        forall|k: int| from + j <= k < r ==> ms[k] != c,
        r < ms.len() ==> ms[r] == c,
    ensures
        index_from(ms.subrange(from, ms.len() as int), j, c) == r - from,
{
    let s = ms.subrange(from, ms.len() as int);
    assert forall|k: int| j <= k < r - from implies s[k] != c by {
        assert(s[k] == ms[from + k]);
    }
    lemma_index_from(s, j, r - from, c);
}

/// Parse an optional decimal number of at most `max`.
fn parse_opt(ms: &str, from: usize, to: usize, max: u32) -> (r: Result<Option<u32>, SyntaxError>)
    requires
        from <= to <= ms@.len(),
    ensures
        r == opt_spec(ms@.subrange(from as int, to as int), max),
{
    if from == to {
        return Ok(None);
    }
    match parse_dec(ms, from, to, max) {
        Some(v) => Ok(Some(v)),
        None => Err(SyntaxError::UnsupportedTagValue),
    }
}

/// Does tag `b` start with the two characters `x` and `y` (in either case)?
fn tag_is(b: &str, n: usize, x: char, y: char) -> (r: bool)
    requires
        n == b@.len(),
    ensures
        r == starts(b@, x, y),
{
    n >= 2 && lc(b, 0) == x && lc(b, 1) == y
}

fn narrow_exec(v: Option<u32>) -> (r: Option<u8>)
    ensures
        r == narrow(v),
{
    match v {
        Some(t) => Some(t as u8),
        None => None,
    }
}

/// Parse a tag, written between its brackets.  A tag that this renderer
/// does not implement is returned as `Value::Unsupported`.
pub fn parse_tag(b: &str) -> (r: Result<Value, SyntaxError>)
    ensures
        match tag_value(b@) {
            Ok(l) => r is Ok && lexeme_of(r->Ok_0) == l,
            Err(e) => r == Err::<Value, SyntaxError>(e),
        },
{
    let n = b.unicode_len();
    let ghost s = b@;
    if n == 3 && lc(b, 0) == '/' && lc(b, 1) == 's' && lc(b, 2) == 'c' {
        return Ok(Value::SpacingCharacterEnd);
    }
    if tag_is(b, n, 'n', 'p') {
        if n == 2 {
            return Ok(Value::NewPage);
        }
        return Ok(Value::Unsupported(b.to_owned()));
    }
    if tag_is(b, n, 'c', 'b') {
        let c = parse_color(b, 2)?;
        return Ok(Value::ColorBackground(c));
    }
    if tag_is(b, n, 'c', 'f') {
        let c = parse_color(b, 2)?;
        return Ok(Value::ColorForeground(c));
    }
    if tag_is(b, n, 'p', 'b') {
        let c = parse_color(b, 2)?;
        return Ok(Value::PageBackground(c));
    }
    if tag_is(b, n, 'f', 'o') {
        if n == 2 {
            return Ok(Value::Font(None));
        }
        let comma = find_char(b, 2, n, ',');
        proof {
            lemma_index_from(s, 2, comma as int, ',');
        }
        let num = match parse_dec(b, 2, comma, 255) {
            Some(v) => v as u8,
            None => return Err(SyntaxError::UnsupportedTagValue),
        };
        if comma == n {
            return Ok(Value::Font(Some((num, None))));
        }
        return match parse_hex(b, comma + 1, n) {
            Some(v) => Ok(Value::Font(Some((num, Some(v))))),
            None => Err(SyntaxError::UnsupportedTagValue),
        };
    }
    if tag_is(b, n, 'j', 'l') {
        return match parse_opt(b, 2, n, 255)? {
            None => Ok(Value::JustificationLine(None)),
            Some(1) => Ok(Value::JustificationLine(Some(LineJustification::Other))),
            Some(2) => Ok(Value::JustificationLine(Some(LineJustification::Left))),
            Some(3) => Ok(Value::JustificationLine(Some(LineJustification::Center))),
            Some(4) => Ok(Value::JustificationLine(Some(LineJustification::Right))),
            Some(5) => Ok(Value::JustificationLine(Some(LineJustification::Full))),
            _ => Err(SyntaxError::UnsupportedTagValue),
        };
    }
    if tag_is(b, n, 'j', 'p') {
        return match parse_opt(b, 2, n, 255)? {
            None => Ok(Value::JustificationPage(None)),
            Some(1) => Ok(Value::JustificationPage(Some(PageJustification::Other))),
            Some(2) => Ok(Value::JustificationPage(Some(PageJustification::Top))),
            Some(3) => Ok(Value::JustificationPage(Some(PageJustification::Middle))),
            Some(4) => Ok(Value::JustificationPage(Some(PageJustification::Bottom))),
            _ => Err(SyntaxError::UnsupportedTagValue),
        };
    }
    if tag_is(b, n, 'n', 'l') {
        let v = parse_opt(b, 2, n, 255)?;
        return Ok(Value::NewLine(narrow_exec(v)));
    }
    if tag_is(b, n, 'p', 't') {
        let mut o: usize = 2;
        let mut found = false;
        while o < n && !found
            invariant
                2 <= o <= n == s.len(),
                s == b@,
                forall|k: int| 2 <= k < o ==> lower(s[k]) != 'o',
                found ==> o < n && lower(s[o as int]) == 'o',
            decreases n - o + if found { 0int } else { 1int },
        {
            if lc(b, o) == 'o' {
                found = true;
            } else {
                o = o + 1;
            }
        }
        proof {
            lemma_index_o(s, 2, o as int);
        }
        let on = parse_opt(b, 2, o, 255)?;
        let off = if o < n {
            parse_opt(b, o + 1, n, 255)?
        } else {
            None
        };
        return Ok(Value::PageTime(narrow_exec(on), narrow_exec(off)));
    }
    if tag_is(b, n, 's', 'c') {
        return match parse_dec(b, 2, n, 255) {
            Some(v) => Ok(Value::SpacingCharacter(v as u8)),
            None => Err(SyntaxError::UnsupportedTagValue),
        };
    }
    if tag_is(b, n, 't', 'r') {
        let c1 = find_char(b, 2, n, ',');
        proof {
            lemma_index_from(s, 2, c1 as int, ',');
        }
        if c1 == n {
            return Err(SyntaxError::UnsupportedTagValue);
        }
        let c2 = find_char(b, c1 + 1, n, ',');
        proof {
            lemma_index_from(s, c1 + 1, c2 as int, ',');
        }
        if c2 == n {
            return Err(SyntaxError::UnsupportedTagValue);
        }
        let c3 = find_char(b, c2 + 1, n, ',');
        proof {
            lemma_index_from(s, c2 + 1, c3 as int, ',');
        }
        if c3 == n {
            return Err(SyntaxError::UnsupportedTagValue);
        }
        let x = parse_dec(b, 2, c1, 65535);
        let y = parse_dec(b, c1 + 1, c2, 65535);
        let w = parse_dec(b, c2 + 1, c3, 65535);
        let h = parse_dec(b, c3 + 1, n, 65535);
        return match (x, y, w, h) {
            (Some(x), Some(y), Some(w), Some(h)) => Ok(
                Value::TextRectangle(Rectangle::new(x as u16, y as u16, w as u16, h as u16)),
            ),
            _ => Err(SyntaxError::UnsupportedTagValue),
        };
    }
    Ok(Value::Unsupported(b.to_owned()))
}

/// Append the text in characters `from..to` of `ms`, if there is any.
fn push_text(values: &mut Vec<Value>, ms: &str, from: usize, to: usize)
    requires
        from <= to <= ms@.len(),
    ensures
        lexemes(final(values)@) == lexemes(old(values)@) + text_lexemes(
            ms@,
            from as int,
            to as int,
        ),
{
    if from < to {
        let t = Value::Text(ms.substring_char(from, to).to_owned());
        values.push(t);
        proof {
            assert(lexemes(final(values)@) =~= lexemes(old(values)@) + text_lexemes(
                ms@,
                from as int,
                to as int,
            ));
        }
    } else {
        proof {
            assert(lexemes(final(values)@) =~= lexemes(old(values)@) + text_lexemes(
                ms@,
                from as int,
                to as int,
            ));
        }
    }
}

/// Split a MULTI message into its values.  Where the message is malformed,
/// the values before the fault are returned with the error found there.
/// A doubled bracket (`[[` or `]]`) stands for one bracket of text.
pub fn parse_values(ms: &str) -> (r: (Vec<Value>, Option<SyntaxError>))
    ensures
        lexemes(r.0@) == message_lexemes(ms@),
        r.1 == message_error(ms@),
{
    let n = ms.unicode_len();
    let ghost s = ms@;
    let ghost whole = lex_from(s, 0, 0);
    let mut values: Vec<Value> = Vec::new();
    let mut i: usize = 0;
    let mut start: usize = 0;
    proof {
        assert(lexemes(values@) + lex_from(s, 0, 0).0 =~= lex_from(s, 0, 0).0);
    }
    while i < n
        invariant
            n == s.len(),
            s == ms@,
            whole == lex_from(s, 0, 0),
            start <= i <= n,
            whole.0 == lexemes(values@) + lex_from(s, i as int, start as int).0,
            whole.1 == lex_from(s, i as int, start as int).1,
        decreases n - i,
    {
        let ghost before = lexemes(values@);
        let c = ms.get_char(i);
        if (c == '[' || c == ']') && i + 1 < n && ms.get_char(i + 1) == c {
            let ghost rest = lex_from(s, i + 2, i + 2);
            push_text(&mut values, ms, start, i + 1);
            i = i + 2;
            start = i;
            proof {
                assert(whole.0 =~= lexemes(values@) + rest.0);
            }
        } else if c == ']' {
            push_text(&mut values, ms, start, i);
            proof {
                assert(whole.0 =~= lexemes(values@));
            }
            return (values, Some(SyntaxError::Other));
        } else if c == '[' {
            push_text(&mut values, ms, start, i);
            let close = find_char(ms, i + 1, n, ']');
            proof {
                lemma_index_from(s, i + 1, close as int, ']');
            }
            if close == n {
                proof {
                    assert(whole.0 =~= lexemes(values@));
                }
                return (values, Some(SyntaxError::Other));
            }
            let body = ms.substring_char(i + 1, close);
            match parse_tag(body) {
                Ok(v) => {
                    let ghost rest = lex_from(s, close + 1, close + 1);
                    let ghost mid = lexemes(values@);
                    values.push(v);
                    proof {
                        assert(lexemes(values@) =~= mid.push(lexeme_of(v)));
                        assert(whole.0 =~= lexemes(values@) + rest.0);
                    }
                },
                Err(e) => {
                    proof {
                        assert(whole.0 =~= lexemes(values@));
                    }
                    return (values, Some(e));
                },
            }
            i = close + 1;
            start = i;
        } else {
            i = i + 1;
        }
    }
    push_text(&mut values, ms, start, n);
    proof {
        assert(whole.0 =~= lexemes(values@));
    }
    (values, None)
}

/// The value of a string of digits is at least that of its prefixes.
proof fn lemma_dec_prefix_grows(s: Seq<char>, k: int)
    requires
        0 <= k <= s.len(),
        forall|i: int| 0 <= i < s.len() ==> is_digit(#[trigger] s[i]),
    ensures
        dec_value(s.subrange(0, k)) <= dec_value(s),
    decreases s.len() - k,
{
    if k < s.len() {
        lemma_dec_prefix_grows(s, k + 1);
        let p = s.subrange(0, k + 1);
        assert(p.drop_last() =~= s.subrange(0, k));
        let x = dec_value(s.subrange(0, k));
        assert(x * 10 + (p.last() as nat - '0' as nat) as nat >= x) by (nonlinear_arith);
        assert(dec_value(p) == x * 10 + (p.last() as nat - '0' as nat) as nat);
    } else {
        assert(s.subrange(0, k) =~= s);
    }
}

} // verus!
