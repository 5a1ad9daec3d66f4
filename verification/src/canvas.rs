//! A grid of colors and its PPM (P3) text form.
use vstd::prelude::*;
use crate::color::Color;
use crate::fixed::{floor_div, ONE};
use crate::text::{
    chars_of, decimal, digit_char, decimal_chars, lines, lines_of, numeral_value, parse_u16, parse_u8,
    parse_usize, string_from_chars, trim, trim_chars, views, words, words_of, join_words, plain_words,
    is_ws, trim_start, trim_end, lemma_lines_of_line, lemma_lines_of_concat, lemma_words_of_join,
    lemma_numeral_of_decimal,
};
use std::num::ParseIntError;

verus! {

/// The largest channel value written to or read from PPM text.
pub const MAX_COLOR_VAL: u16 = 255;

/// Lines of pixel data are kept shorter than this many characters.
pub const MAX_PPM_LINE_LENGTH: usize = 70;

/// The length of the longest channel value, `"255"`.
pub const MAX_COLOR_VAL_STR_LEN: usize = 3;

/// A `width` by `height` grid of colors, all black when created.
#[derive(Clone, Debug)]
pub struct Canvas {
    pub width: usize,
    pub height: usize,
    data: Vec<Vec<Color>>,
}

/// What a canvas holds: its size and its rows of colors, top to bottom.
pub struct CanvasView {
    pub width: nat,
    pub height: nat,
    pub pixels: Seq<Seq<Color>>,
}

impl View for Canvas {
    type V = CanvasView;

    closed spec fn view(&self) -> CanvasView {
        CanvasView {
            width: self.width as nat,
            height: self.height as nat,
            pixels: Seq::new(self.data@.len(), |y: int| self.data@[y]@),
        }
    }
}

impl Canvas {
    /// The rows of the canvas, top to bottom.
    pub open spec fn pixels(&self) -> Seq<Seq<Color>> {
        self@.pixels
    }

    /// `height` rows of `width` pixels each.
    pub open spec fn wf(&self) -> bool {
        &&& self@.pixels.len() == self@.height
        &&& forall|y: int| 0 <= y < self@.height ==> #[trigger] self@.pixels[y].len() == self@.width
    }

    /// The color at column `x` of row `y`.
    pub open spec fn pixel(&self, x: int, y: int) -> Color {
        self@.pixels[y][x]
    }

    /// A canvas of the given size, every pixel black.
    pub fn new(width: usize, height: usize) -> (c: Canvas)
        ensures
            c.wf(),
            c@.width == width,
            c@.height == height,
            forall|x: int, y: int|
                0 <= x < width && 0 <= y < height ==> #[trigger] c.pixel(x, y) == (Color {
                    r: 0,
                    g: 0,
                    b: 0,
                }),
    {
        let black = Color::new(0, 0, 0);
        let mut data: Vec<Vec<Color>> = Vec::new();
        let mut y: usize = 0;
        while y < height
            invariant
                y <= height,
                data@.len() == y,
                forall|k: int| 0 <= k < y ==> #[trigger] data@[k]@.len() == width,
                forall|k: int, x: int|
                    0 <= k < y && 0 <= x < width ==> #[trigger] data@[k]@[x] == black,
            decreases height - y,
        {
            let mut row: Vec<Color> = Vec::new();
            let mut x: usize = 0;
            while x < width
                invariant
                    x <= width,
                    row@.len() == x,
                    forall|i: int| 0 <= i < x ==> #[trigger] row@[i] == black,
                decreases width - x,
            {
                row.push(black);
                x = x + 1;
            }
            data.push(row);
            y = y + 1;
        }
        Canvas { width, height, data }
    }

    /// Sets the pixel at column `x` of row `y`. Positions past the last
    /// column or row by more than one are ignored; the position just past
    /// the last column or row (within the other bound) is refused.
    pub fn write_pixel(&mut self, x: usize, y: usize, color: Color)
        requires
            old(self).wf(),
            (x <= old(self)@.width && y <= old(self)@.height) ==> (x < old(self)@.width && y < old(self)@.height),
        ensures
            final(self).wf(),
            final(self)@.width == old(self)@.width,
            final(self)@.height == old(self)@.height,
            (x < old(self)@.width && y < old(self)@.height) ==> final(self).pixels() == old(
                self,
            ).pixels().update(y as int, old(self).pixels()[y as int].update(x as int, color)),
            !(x < old(self)@.width && y < old(self)@.height) ==> final(self).pixels() == old(
                self,
            ).pixels(),
    {
        if x <= self.width && y <= self.height {
            let ghost before = self.pixels();
            assert(self@.pixels[y as int] == self.data@[y as int]@);
            self.data[y].set(x, color);
            assert(self.pixels() =~= before.update(y as int, before[y as int].update(x as int, color)));
        }
    }

    /// The width and the height.
    pub fn dimensions(&self) -> (d: (usize, usize))
        ensures
            d.0 == self@.width,
            d.1 == self@.height,
    {
        (self.width, self.height)
    }

    /// The color at column `x` of row `y`.
    pub fn pixel_at(&self, x: usize, y: usize) -> (c: Color)
        requires
            self.wf(),
            x < self@.width,
            y < self@.height,
        ensures
            c == self.pixel(x as int, y as int),
    {
        assert(self@.pixels[y as int] == self.data@[y as int]@);
        self.data[y][x]
    }
}

/// A channel scaled from `[0, 1]` to `[0, 255]`, rounded down and clamped.
pub open spec fn scale_color_spec(v: int) -> int {
    let s = floor_div(v * 255, ONE as int);
    if s > 255 {
        255
    } else if s < 0 {
        0
    } else {
        s
    }
}

fn scale_color(rgb: i64) -> (v: u8)
    ensures
        v == scale_color_spec(rgb as int),
{
    let s = crate::fixed::floor_div_i128((rgb as i128) * 255, ONE as i128);
    if s > 255 {
        255
    } else if s < 0 {
        0
    } else {
        s as u8
    }
}

/// The numeral written for channel `k` (0 red, 1 green, 2 blue) of `c`.
pub open spec fn channel_token(c: Color, k: int) -> Seq<char> {
    decimal(
        scale_color_spec(
            if k == 0 {
                c.r as int
            } else if k == 1 {
                c.g as int
            } else {
                c.b as int
            },
        ) as nat,
    )
}

/// The numerals written for a row: red, green and blue of each pixel in turn.
pub open spec fn row_tokens(row: Seq<Color>) -> Seq<Seq<char>> {
    Seq::new(3 * row.len(), |k: int| channel_token(row[k / 3], k % 3))
}

/// The text written for the numerals `t` when the current line already
/// holds `line`: each numeral is followed by a space while the line is
/// shorter than 67 characters, and by a line break otherwise; the last
/// numeral is followed by nothing, and a line that is not empty at the end
/// is closed with a line break.
pub open spec fn layout(t: Seq<Seq<char>>, line: Seq<char>) -> Seq<char>
    decreases t.len(),
{
    if t.len() == 0 {
        if line.len() > 0 {
            line.push('\n')
        } else {
            Seq::empty()
        }
    } else {
        let l2 = line + t[0];
        if t.len() == 1 {
            layout(t.drop_first(), l2)
        } else if l2.len() < 67 {
            layout(t.drop_first(), l2.push(' '))
        } else {
            l2.push('\n') + layout(t.drop_first(), Seq::empty())
        }
    }
}

/// The pixel data of the rows, each row starting on a new line.
pub open spec fn rows_text(rows: Seq<Seq<Color>>) -> Seq<char>
    decreases rows.len(),
{
    if rows.len() == 0 {
        Seq::empty()
    } else {
        rows_text(rows.drop_last()) + layout(row_tokens(rows.last()), Seq::empty())
    }
}

/// The PPM text of a canvas: the header `P3`, the size and the maximum
/// channel value, each on a line of its own, then the pixel data.
pub open spec fn ppm_spec(c: &Canvas) -> Seq<char> {
    seq!['P', '3', '\n'] + decimal(c@.width) + seq![' '] + decimal(c@.height) + seq![
        '\n',
    ] + seq!['2', '5', '5', '\n'] + rows_text(c.pixels())
}

fn push_all(dst: &mut Vec<char>, src: &Vec<char>)
    ensures
        final(dst)@ == old(dst)@ + src@,
{
    let mut i: usize = 0;
    while i < src.len()
        invariant
            i <= src.len(),
            dst@ == old(dst)@ + src@.take(i as int),
        decreases src.len() - i,
    {
        dst.push(src[i]);
        assert(src@.take(i + 1) == src@.take(i as int).push(src@[i as int]));
        i = i + 1;
    }
    assert(src@.take(src.len() as int) == src@);
}

impl Canvas {
    /// Ends the current numeral: a space when the line has room for another,
    /// otherwise the line is moved to the PPM text with a line break.
    fn write_rgb_separator(&self, line: &mut Vec<char>, ppm: &mut Vec<char>)
        ensures
            old(line)@.len() < 67 ==> final(line)@ == old(line)@.push(' ') && final(ppm)@ == old(
                ppm,
            )@,
            old(line)@.len() >= 67 ==> final(line)@ == Seq::<char>::empty() && final(ppm)@ == old(
                ppm,
            )@ + old(line)@.push('\n'),
    {
        if line.len() < MAX_PPM_LINE_LENGTH - MAX_COLOR_VAL_STR_LEN {
            line.push(' ');
        } else {
            push_all(ppm, line);
            ppm.push('\n');
            *line = Vec::new();
        }
    }
}

/// Appends one numeral to the current line, then a separator unless it is
/// the last numeral of the row.
fn emit_token(
    canvas: &Canvas,
    token: &Vec<char>,
    last: bool,
    line: &mut Vec<char>,
    ppm: &mut Vec<char>,
    Ghost(t): Ghost<Seq<Seq<char>>>,
)
    requires
        t.len() >= 1,
        t[0] == token@,
        last == (t.len() == 1),
    ensures
        final(ppm)@ + layout(t.drop_first(), final(line)@) == old(ppm)@ + layout(t, old(line)@),
{
    push_all(line, token);
    if !last {
        let ghost l2 = line@;
        let ghost p0 = ppm@;
        canvas.write_rgb_separator(line, ppm);
        proof {
            if l2.len() >= 67 {
                assert(ppm@ + layout(t.drop_first(), line@) =~= p0 + (l2.push('\n') + layout(
                    t.drop_first(),
                    Seq::empty(),
                )));
            }
        }
    }
}

fn push_numeral(dst: &mut Vec<char>, n: u64)
    ensures
        final(dst)@ == old(dst)@ + decimal(n as nat),
{
    let digits = decimal_chars(n);
    push_all(dst, &digits);
}

impl Canvas {
    /// The PPM text of the canvas (see `ppm_spec`).
    pub fn to_ppm(&self) -> (s: String)
        requires
            self.wf(),
        ensures
            s@ == ppm_spec(self),
    {
        let mut ppm: Vec<char> = Vec::new();
        ppm.push('P');
        ppm.push('3');
        ppm.push('\n');
        push_numeral(&mut ppm, self.width as u64);
        ppm.push(' ');
        push_numeral(&mut ppm, self.height as u64);
        ppm.push('\n');
        push_numeral(&mut ppm, MAX_COLOR_VAL as u64);
        ppm.push('\n');
        assert(decimal(255) == seq!['2', '5', '5']) by {
            reveal_with_fuel(decimal, 3);
        }
        let ghost header = ppm@;
        assert(header =~= seq!['P', '3', '\n'] + decimal(self@.width) + seq![' '] + decimal(
            self@.height,
        ) + seq!['\n'] + seq!['2', '5', '5', '\n']);
        let ghost rows = self.pixels();
        assert(rows.take(0) =~= Seq::<Seq<Color>>::empty());
        assert(ppm@ =~= header + rows_text(rows.take(0)));

        let mut row: usize = 0;
        while row < self.height
            invariant
                self.wf(),
                rows == self.pixels(),
                row <= self@.height,
                ppm@ == header + rows_text(rows.take(row as int)),
            decreases self@.height - row,
        {
            let mut current_line: Vec<char> = Vec::new();
            let ghost before = ppm@;
            let ghost toks = row_tokens(rows[row as int]);
            assert(toks.skip(0) =~= toks);
            let mut col: usize = 0;
            while col < self.width
                invariant
                    self.wf(),
                    rows == self.pixels(),
                    row < self@.height,
                    col <= self@.width,
                    toks == row_tokens(rows[row as int]),
                    toks.len() == 3 * self@.width,
                    ppm@ + layout(toks.skip(3 * col), current_line@) == before + layout(
                        toks,
                        Seq::empty(),
                    ),
                decreases self@.width - col,
            {
                let color = self.pixel_at(col, row);
                let r = scale_color(color.r);
                let g = scale_color(color.g);
                let b = scale_color(color.b);

                let ghost k = 3 * col;
                assert(toks[k] == channel_token(color, 0));
                assert(toks[k + 1] == channel_token(color, 1));
                assert(toks[k + 2] == channel_token(color, 2));
                assert(toks.skip(k).drop_first() =~= toks.skip(k + 1));
                assert(toks.skip(k + 1).drop_first() =~= toks.skip(k + 2));
                assert(toks.skip(k + 2).drop_first() =~= toks.skip(k + 3));

                let rd = decimal_chars(r as u64);
                emit_token(self, &rd, false, &mut current_line, &mut ppm, Ghost(toks.skip(k)));
                let gd = decimal_chars(g as u64);
                emit_token(self, &gd, false, &mut current_line, &mut ppm, Ghost(toks.skip(k + 1)));
                let bd = decimal_chars(b as u64);
                emit_token(
                    self,
                    &bd,
                    col == self.width - 1,
                    &mut current_line,
                    &mut ppm,
                    Ghost(toks.skip(k + 2)),
                );
                col = col + 1;
            }
            assert(toks.skip(3 * col) =~= Seq::<Seq<char>>::empty());
            if current_line.len() > 0 {
                push_all(&mut ppm, &current_line);
                ppm.push('\n');
            }
            assert(rows.take(row + 1).drop_last() =~= rows.take(row as int));
            assert(ppm@ =~= header + rows_text(rows.take(row + 1)));
            row = row + 1;
        }
        assert(rows.take(row as int) =~= rows);
        string_from_chars(ppm.as_slice())
    }
}

/// Why PPM text could not be read.
#[derive(Debug)]
pub enum ParseError {
    /// The magic number or the scale is not the supported one.
    IncorrectFormat(String),
    /// A number is not an unsigned integer of the required size.
    ParseIntError(ParseIntError),
    /// The size line does not hold exactly two words.
    MalformedDimensionHeader(String),
}

impl From<ParseIntError> for ParseError {
    fn from(err: ParseIntError) -> (e: ParseError) {
        ParseError::ParseIntError(err)
    }
}

impl vstd::std_specs::convert::FromSpecImpl<ParseIntError> for ParseError {
    open spec fn obeys_from_spec() -> bool {
        true
    }

    open spec fn from_spec(v: ParseIntError) -> ParseError {
        ParseError::ParseIntError(v)
    }
}

/// Whether a trimmed line carries content: it is not empty and is not a
/// comment (a line starting with `#`).
pub open spec fn keep_line(l: Seq<char>) -> bool {
    l.len() > 0 && l[0] != '#'
}

/// The trimmed lines that carry content, in order.
pub open spec fn clean_lines(ls: Seq<Seq<char>>) -> Seq<Seq<char>>
    decreases ls.len(),
{
    if ls.len() == 0 {
        Seq::empty()
    } else {
        let rest = clean_lines(ls.drop_last());
        let t = trim(ls.last());
        if keep_line(t) {
            rest.push(t)
        } else {
            rest
        }
    }
}

/// The channel values on a line, when every word is a numeral of at most 255.
pub open spec fn line_values(ws: Seq<Seq<char>>) -> Option<Seq<int>>
    decreases ws.len(),
{
    if ws.len() == 0 {
        Some(Seq::empty())
    } else {
        match line_values(ws.drop_last()) {
            Some(vs) => match numeral_value(ws.last()) {
                Some(v) => if v <= 255 {
                    Some(vs.push(v))
                } else {
                    None
                },
                None => None,
            },
            None => None,
        }
    }
}

/// The channel values of the pixel lines up to the first line that holds a
/// word that is not a channel value, and whether there is such a line.
pub open spec fn pixel_values(ls: Seq<Seq<char>>) -> (Seq<int>, bool)
    decreases ls.len(),
{
    if ls.len() == 0 {
        (Seq::empty(), false)
    } else {
        match line_values(words_of(ls[0])) {
            None => (Seq::empty(), true),
            Some(vs) => {
                let rest = pixel_values(ls.drop_first());
                (vs + rest.0, rest.1)
            },
        }
    }
}

/// A channel value from `[0, 255]` as a fixed-point intensity: `v / 255`
/// rounded to the nearest representable value (halves rounded up).
pub open spec fn channel_spec(v: int) -> int {
    floor_div(2 * v * ONE + 255, 510)
}

/// The color of pixel `k` in the list of channel values.
pub open spec fn triple_color(vals: Seq<int>, k: int) -> Color {
    Color {
        r: channel_spec(vals[3 * k]) as i64,
        g: channel_spec(vals[3 * k + 1]) as i64,
        b: channel_spec(vals[3 * k + 2]) as i64,
    }
}

/// The pixel at column `x` of row `y` of a `w`-wide image read from the
/// channel values `vals`: pixels are filled row by row, and those that no
/// complete triple reaches stay black.
pub open spec fn image_pixel(w: int, vals: Seq<int>, x: int, y: int) -> Color {
    filled_pixel(w, vals, (vals.len() / 3) as int, x, y)
}

/// The pixel at column `x` of row `y` once the first `n` triples of `vals`
/// have been written row by row into a `w`-wide image.
pub open spec fn filled_pixel(w: int, vals: Seq<int>, n: int, x: int, y: int) -> Color {
    if y * w + x < n {
        triple_color(vals, y * w + x)
    } else {
        Color { r: 0, g: 0, b: 0 }
    }
}

/// What reading PPM text comes to.
pub enum PpmOutcome {
    /// The text runs out before a header line that is needed, or holds more
    /// pixels than the image; reading it is refused.
    Refused,
    IncorrectFormat(Seq<char>),
    MalformedDimensionHeader(Seq<char>),
    NotANumber,
    Image { width: nat, height: nat, values: Seq<int> },
}

pub open spec fn magic_message() -> Seq<char> {
    "Incorrect magic number at line 1: expected P3, found "@
}

pub open spec fn dimension_message() -> Seq<char> {
    "Expected width and height at line 2; found "@
}

pub open spec fn scale_message() -> Seq<char> {
    "Incorrect scale at line 3: only 255 supported, found "@
}

/// Whether a string is the numeral of a value that fits in `bound`.
pub open spec fn fits_numeral(s: Seq<char>, bound: int) -> bool {
    numeral_value(s) matches Some(v) && v <= bound
}

/// Reading PPM text: the lines that carry content must be the magic number
/// `P3`, the width and height, the scale 255, and then the channel values,
/// three per pixel, filling the image row by row.
pub open spec fn ppm_outcome(text: Seq<char>) -> PpmOutcome {
    let ls = clean_lines(lines_of(text));
    if ls.len() < 1 {
        PpmOutcome::Refused
    } else if ls[0] != seq!['P', '3'] {
        PpmOutcome::IncorrectFormat(magic_message() + ls[0])
    } else if ls.len() < 2 {
        PpmOutcome::Refused
    } else if words_of(ls[1]).len() != 2 {
        PpmOutcome::MalformedDimensionHeader(dimension_message() + ls[1])
    } else if !fits_numeral(words_of(ls[1])[0], usize::MAX as int) || !fits_numeral(
        words_of(ls[1])[1],
        usize::MAX as int,
    ) {
        PpmOutcome::NotANumber
    } else if ls.len() < 3 {
        PpmOutcome::Refused
    } else if !fits_numeral(ls[2], u16::MAX as int) {
        PpmOutcome::NotANumber
    } else if numeral_value(ls[2]) != Some(255int) {
        PpmOutcome::IncorrectFormat(scale_message() + ls[2])
    } else {
        let w = numeral_value(words_of(ls[1])[0])->0;
        let h = numeral_value(words_of(ls[1])[1])->0;
        let pv = pixel_values(ls.skip(3));
        if pv.0.len() / 3 > w * h {
            PpmOutcome::Refused
        } else if pv.1 {
            PpmOutcome::NotANumber
        } else {
            PpmOutcome::Image { width: w as nat, height: h as nat, values: pv.0 }
        }
    }
}

/// Whether the result of reading matches the outcome.
pub open spec fn ppm_result_matches(r: Result<Canvas, ParseError>, o: PpmOutcome) -> bool {
    match o {
        PpmOutcome::Refused => false,
        PpmOutcome::IncorrectFormat(m) => r matches Err(ParseError::IncorrectFormat(s)) && s@ == m,
        PpmOutcome::MalformedDimensionHeader(m) => r matches Err(
            ParseError::MalformedDimensionHeader(s),
        ) && s@ == m,
        PpmOutcome::NotANumber => r matches Err(ParseError::ParseIntError(_)),
        PpmOutcome::Image { width, height, values } => r matches Ok(c) && c.wf() && c@.width
            == width && c@.height == height && forall|x: int, y: int|
            0 <= x < width && 0 <= y < height ==> #[trigger] c.pixel(x, y) == image_pixel(
                width as int,
                values,
                x,
                y,
            ),
    }
}

/// The trimmed line, unless it is blank or a comment.
fn clean_line(line: &Vec<char>) -> (r: Option<Vec<char>>)
    ensures
        r is Some <==> keep_line(trim(line@)),
        r matches Some(t) ==> t@ == trim(line@),
{
    let t = trim_chars(line.as_slice());
    if t.len() == 0 || t[0] == '#' {
        None
    } else {
        Some(t)
    }
}

/// The trimmed lines of `text` that carry content.
fn content_lines(text: &Vec<char>) -> (ls: Vec<Vec<char>>)
    ensures
        views(ls@) == clean_lines(lines_of(text@)),
{
    let all = lines(text);
    let ghost all_views = views(all@);
    let mut ls: Vec<Vec<char>> = Vec::new();
    let mut i: usize = 0;
    assert(all_views.take(0) =~= Seq::<Seq<char>>::empty());
    assert(views(ls@) =~= Seq::<Seq<char>>::empty());
    while i < all.len()
        invariant
            i <= all.len(),
            all_views == views(all@),
            all_views == lines_of(text@),
            views(ls@) == clean_lines(all_views.take(i as int)),
        decreases all.len() - i,
    {
        assert(all_views.take(i + 1).drop_last() =~= all_views.take(i as int));
        assert(all_views.take(i + 1).last() == all[i as int]@);
        match clean_line(&all[i]) {
            Some(t) => {
                let ghost before = ls@;
                let ghost tv = t@;
                ls.push(t);
                assert(views(ls@) =~= views(before).push(tv));
            },
            None => {},
        }
        i = i + 1;
    }
    assert(all_views.take(i as int) =~= all_views);
    ls
}

/// The int values of a vector of bytes.
pub open spec fn byte_values(v: Seq<u8>) -> Seq<int> {
    Seq::new(v.len(), |k: int| v[k] as int)
}

proof fn lemma_line_values_prefix_none(ws: Seq<Seq<char>>, i: int)
    requires
        0 <= i <= ws.len(),
        line_values(ws.take(i)) is None,
    ensures
        line_values(ws) is None,
    decreases ws.len() - i,
{
    if i < ws.len() {
        assert(ws.take(i + 1).drop_last() =~= ws.take(i));
        lemma_line_values_prefix_none(ws, i + 1);
    } else {
        assert(ws.take(i) =~= ws);
    }
}

/// The channel values on a line, or the error for its first word that is
/// not one.
fn parse_line_values(line: &Vec<char>) -> (r: Result<Vec<u8>, ParseIntError>)
    ensures
        r is Ok <==> line_values(words_of(line@)) is Some,
        r matches Ok(v) ==> line_values(words_of(line@)) == Some(byte_values(v@)),
{
    let ws = words(line.as_slice());
    let ghost wv = views(ws@);
    let mut vals: Vec<u8> = Vec::new();
    let mut i: usize = 0;
    assert(wv.take(0) =~= Seq::<Seq<char>>::empty());
    assert(byte_values(vals@) =~= Seq::<int>::empty());
    while i < ws.len()
        invariant
            i <= ws.len(),
            wv == views(ws@),
            wv == words_of(line@),
            line_values(wv.take(i as int)) == Some(byte_values(vals@)),
        decreases ws.len() - i,
    {
        let word = string_from_chars(ws[i].as_slice());
        assert(wv.take(i + 1).drop_last() =~= wv.take(i as int));
        assert(wv.take(i + 1).last() == ws[i as int]@);
        match parse_u8(word.as_str()) {
            Ok(v) => {
                let ghost before = vals@;
                vals.push(v);
                assert(byte_values(vals@) =~= byte_values(before).push(v as int));
            },
            Err(e) => {
                proof {
                    lemma_line_values_prefix_none(wv, i + 1);
                }
                return Err(e);
            },
        }
        i = i + 1;
    }
    assert(wv.take(i as int) =~= wv);
    Ok(vals)
}

/// `prefix` followed by the characters of `line`.
fn message(prefix: &str, line: &Vec<char>) -> (s: String)
    ensures
        s@ == prefix@ + line@,
{
    let mut m = chars_of(prefix);
    push_all(&mut m, line);
    string_from_chars(m.as_slice())
}

/// A channel value from `[0, 255]` as a fixed-point intensity.
pub(crate) fn channel(v: u8) -> (c: i64)
    ensures
        c == channel_spec(v as int),
{
    proof {
        assert(0 <= 2 * (v as int) * ONE + 255 <= 510 * ONE + 255) by (nonlinear_arith)
            requires
                0 <= v <= 255,
        ;
    }
    let q = crate::fixed::floor_div_i128(2 * (v as i128) * (ONE as i128) + 255, 510);
    proof {
        vstd::arithmetic::div_mod::lemma_div_is_ordered(
            2 * (v as int) * ONE + 255,
            510 * ONE + 255,
            510,
        );
        assert((510 * ONE + 255) / 510 == ONE as int);
        vstd::arithmetic::div_mod::lemma_div_pos_is_pos(2 * (v as int) * ONE + 255, 510);
    }
    q as i64
}

proof fn lemma_position_unique(w: int, x1: int, y1: int, x2: int, y2: int)
    requires
        w > 0,
        0 <= x1 < w,
        0 <= x2 < w,
        y1 >= 0,
        y2 >= 0,
        y1 * w + x1 == y2 * w + x2,
    ensures
        x1 == x2,
        y1 == y2,
{
    if y1 < y2 {
        assert(y1 * w + w <= y2 * w) by (nonlinear_arith)
            requires
                y1 < y2,
                w > 0,
        ;
    } else if y2 < y1 {
        assert(y2 * w + w <= y1 * w) by (nonlinear_arith)
            requires
                y2 < y1,
                w > 0,
        ;
    }
}

proof fn lemma_row_in_bounds(w: int, h: int, x: int, y: int)
    requires
        w > 0,
        0 <= x < w,
        y >= 0,
        y * w + x < w * h,
    ensures
        y < h,
{
    if y >= h {
        assert(y * w >= h * w) by (nonlinear_arith)
            requires
                y >= h,
                w > 0,
        ;
        assert(w * h == h * w) by (nonlinear_arith);
    }
}

/// Writes every complete triple of `vals` from `next` on into the canvas.
/// `None` when a triple would land past the last pixel.
fn drain_triples(
    canvas: &mut Canvas,
    vals: &Vec<u8>,
    next: &mut usize,
    count: &mut usize,
    x: &mut usize,
    y: &mut usize,
) -> (done: bool)
    requires
        old(canvas).wf(),
        *old(next) == 3 * *old(count),
        *old(next) <= vals.len(),
        *old(count) <= old(canvas)@.width * old(canvas)@.height,
        old(canvas)@.width > 0 ==> *old(x) < old(canvas)@.width,
        *old(y) * old(canvas)@.width + *old(x) == *old(count),
        forall|px: int, py: int|
            0 <= px < old(canvas)@.width && 0 <= py < old(canvas)@.height
                ==> #[trigger] old(canvas).pixel(px, py) == filled_pixel(
                old(canvas)@.width as int,
                byte_values(vals@),
                *old(count) as int,
                px,
                py,
            ),
    ensures
        final(canvas).wf(),
        final(canvas)@.width == old(canvas)@.width,
        final(canvas)@.height == old(canvas)@.height,
        done ==> {
            &&& *final(next) == 3 * *final(count)
            &&& *final(next) <= vals.len() < *final(next) + 3
            &&& *final(count) <= final(canvas)@.width * final(canvas)@.height
            &&& final(canvas)@.width > 0 ==> *final(x) < final(canvas)@.width
            &&& *final(y) * final(canvas)@.width + *final(x) == *final(count)
            &&& forall|px: int, py: int|
                0 <= px < final(canvas)@.width && 0 <= py < final(canvas)@.height
                    ==> #[trigger] final(canvas).pixel(px, py) == filled_pixel(
                    final(canvas)@.width as int,
                    byte_values(vals@),
                    *final(count) as int,
                    px,
                    py,
                )
        },
        !done ==> vals.len() / 3 > old(canvas)@.width * old(canvas)@.height,
{
    let w = canvas.width;
    let h = canvas.height;
    assert(w == canvas@.width && h == canvas@.height);
    let ghost bv = byte_values(vals@);
    while vals.len() - *next >= 3
        invariant
            canvas.wf(),
            canvas@.width == w,
            canvas@.height == h,
            w == old(canvas)@.width,
            h == old(canvas)@.height,
            bv == byte_values(vals@),
            *next == 3 * *count,
            *next <= vals.len(),
            *count <= w * h,
            w > 0 ==> *x < w,
            *y * w + *x == *count,
            forall|px: int, py: int|
                0 <= px < w && 0 <= py < h ==> #[trigger] canvas.pixel(px, py) == filled_pixel(
                    w as int,
                    bv,
                    *count as int,
                    px,
                    py,
                ),
        decreases vals.len() - *next,
    {
        proof {
            assert((w as int) * (h as int) <= 0xffff_ffff_ffff_ffff * 0xffff_ffff_ffff_ffff)
                by (nonlinear_arith)
                requires
                    0 <= w <= 0xffff_ffff_ffff_ffff,
                    0 <= h <= 0xffff_ffff_ffff_ffff,
            ;
        }
        if !((*count as u128) < (w as u128) * (h as u128)) {
            return false;
        }
        let n = *next;
        let color = Color::new(channel(vals[n]), channel(vals[n + 1]), channel(vals[n + 2]));
        assert(color == triple_color(bv, *count as int));
        proof {
            lemma_row_in_bounds(w as int, h as int, *x as int, *y as int);
        }
        let ghost before = *canvas;
        let ghost cx = *x as int;
        let ghost cy = *y as int;
        let ghost c0 = *count as int;
        canvas.write_pixel(*x, *y, color);
        assert forall|px: int, py: int| 0 <= px < w && 0 <= py < h implies #[trigger] canvas.pixel(
            px,
            py,
        ) == filled_pixel(w as int, bv, c0 + 1, px, py) by {
            if px == cx && py == cy {
            } else {
                assert(before.pixel(px, py) == filled_pixel(w as int, bv, c0, px, py));
                if py * w + px == c0 {
                    lemma_position_unique(w as int, px, py, cx, cy);
                }
            }
        }
        *x = *x + 1;
        if *x >= w {
            *x = 0;
            *y = *y + 1;
            assert((cy + 1) * w == cy * w + w) by (nonlinear_arith);
        }
        *next = n + 3;
        *count = *count + 1;
    }
    true
}

/// Reads the pixel lines `ls[3..]` into a `w` by `h` canvas. `None` when
/// they hold more pixels than the canvas.
fn fill_canvas(ls: &Vec<Vec<char>>, w: usize, h: usize) -> (r: Option<Result<Canvas, ParseError>>)
    requires
        ls.len() >= 3,
    ensures
        ({
            let pv = pixel_values(views(ls@).skip(3));
            &&& r is None <==> pv.0.len() / 3 > w * h
            &&& r matches Some(res) ==> ppm_result_matches(
                res,
                if pv.1 {
                    PpmOutcome::NotANumber
                } else {
                    PpmOutcome::Image { width: w as nat, height: h as nat, values: pv.0 }
                },
            )
        }),
{
    let ghost lv = views(ls@);
    let ghost pv_all = pixel_values(lv.skip(3));
    let mut canvas = Canvas::new(w, h);
    let mut vals: Vec<u8> = Vec::new();
    let mut next: usize = 0;
    let mut count: usize = 0;
    let mut x: usize = 0;
    let mut y: usize = 0;
    let mut i: usize = 3;
    assert(byte_values(vals@) =~= Seq::<int>::empty());
    assert(pv_all.0 =~= byte_values(vals@) + pixel_values(lv.skip(3)).0);
    while i < ls.len()
        invariant
            3 <= i <= ls.len(),
            lv == views(ls@),
            pv_all == pixel_values(lv.skip(3)),
            pv_all.0 == byte_values(vals@) + pixel_values(lv.skip(i as int)).0,
            pv_all.1 == pixel_values(lv.skip(i as int)).1,
            canvas.wf(),
            canvas@.width == w,
            canvas@.height == h,
            next == 3 * count,
            next <= vals.len() < next + 3,
            count <= w * h,
            w > 0 ==> x < w,
            y * w + x == count,
            forall|px: int, py: int|
                0 <= px < w && 0 <= py < h ==> #[trigger] canvas.pixel(px, py) == filled_pixel(
                    w as int,
                    byte_values(vals@),
                    count as int,
                    px,
                    py,
                ),
        decreases ls.len() - i,
    {
        assert(lv.skip(i as int)[0] == lv[i as int]);
        assert(lv.skip(i as int).drop_first() =~= lv.skip(i + 1));
        assert(lv[i as int] == ls[i as int]@);
        match parse_line_values(&ls[i]) {
            Err(e) => {
                assert(pv_all.0 =~= byte_values(vals@));
                return Some(Err(ParseError::ParseIntError(e)));
            },
            Ok(line_vals) => {
                let ghost old_bv = byte_values(vals@);
                let mut j: usize = 0;
                while j < line_vals.len()
                    invariant
                        j <= line_vals.len(),
                        byte_values(vals@) == old_bv + byte_values(line_vals@).take(j as int),
                        next <= vals.len(),
                        forall|px: int, py: int|
                            0 <= px < w && 0 <= py < h ==> #[trigger] canvas.pixel(px, py)
                                == filled_pixel(w as int, old_bv, count as int, px, py),
                    decreases line_vals.len() - j,
                {
                    let ghost b0 = byte_values(vals@);
                    vals.push(line_vals[j]);
                    assert(byte_values(vals@) =~= b0.push(line_vals[j as int] as int));
                    assert(byte_values(line_vals@).take(j + 1) =~= byte_values(line_vals@).take(
                        j as int,
                    ).push(line_vals[j as int] as int));
                    j = j + 1;
                }
                assert(byte_values(line_vals@).take(j as int) =~= byte_values(line_vals@));
                let ghost new_bv = byte_values(vals@);
                assert forall|px: int, py: int| 0 <= px < w && 0 <= py < h implies #[trigger] canvas.pixel(
                    px,
                    py,
                ) == filled_pixel(w as int, new_bv, count as int, px, py) by {
                    if py * w + px < count {
                        assert(new_bv[3 * (py * w + px)] == old_bv[3 * (py * w + px)]);
                        assert(new_bv[3 * (py * w + px) + 1] == old_bv[3 * (py * w + px) + 1]);
                        assert(new_bv[3 * (py * w + px) + 2] == old_bv[3 * (py * w + px) + 2]);
                    }
                }
                assert(pv_all.0 =~= new_bv + pixel_values(lv.skip(i + 1)).0);
                if !drain_triples(&mut canvas, &vals, &mut next, &mut count, &mut x, &mut y) {
                    return None;
                }
            },
        }
        i = i + 1;
    }
    assert(lv.skip(i as int) =~= Seq::<Seq<char>>::empty());
    assert(pv_all.0 =~= byte_values(vals@));
    Some(Ok(canvas))
}

/// Reads PPM text; `None` when the text is refused (see `PpmOutcome`).
fn read_ppm(text: &Vec<char>) -> (r: Option<Result<Canvas, ParseError>>)
    ensures
        r is None <==> ppm_outcome(text@) is Refused,
        r matches Some(res) ==> ppm_result_matches(res, ppm_outcome(text@)),
{
    let ls = content_lines(text);
    let ghost lv = views(ls@);
    if ls.len() < 1 {
        return None;
    }
    assert(lv[0] == ls[0]@);
    if !(ls[0].len() == 2 && ls[0][0] == 'P' && ls[0][1] == '3') {
        assert(lv[0] != seq!['P', '3']);
        let m = message("Incorrect magic number at line 1: expected P3, found ", &ls[0]);
        return Some(Err(ParseError::IncorrectFormat(m)));
    }
    assert(lv[0] =~= seq!['P', '3']);
    if ls.len() < 2 {
        return None;
    }
    assert(lv[1] == ls[1]@);
    let dims = words(ls[1].as_slice());
    if dims.len() != 2 {
        let m = message("Expected width and height at line 2; found ", &ls[1]);
        return Some(Err(ParseError::MalformedDimensionHeader(m)));
    }
    assert(views(dims@)[0] == dims[0]@);
    assert(views(dims@)[1] == dims[1]@);
    let width_text = string_from_chars(dims[0].as_slice());
    let width = match parse_usize(width_text.as_str()) {
        Ok(v) => v,
        Err(e) => {
            return Some(Err(ParseError::ParseIntError(e)));
        },
    };
    let height_text = string_from_chars(dims[1].as_slice());
    let height = match parse_usize(height_text.as_str()) {
        Ok(v) => v,
        Err(e) => {
            return Some(Err(ParseError::ParseIntError(e)));
        },
    };
    if ls.len() < 3 {
        return None;
    }
    assert(lv[2] == ls[2]@);
    let scale_text = string_from_chars(ls[2].as_slice());
    let scale = match parse_u16(scale_text.as_str()) {
        Ok(v) => v,
        Err(e) => {
            return Some(Err(ParseError::ParseIntError(e)));
        },
    };
    if scale != MAX_COLOR_VAL {
        let m = message("Incorrect scale at line 3: only 255 supported, found ", &ls[2]);
        return Some(Err(ParseError::IncorrectFormat(m)));
    }
    fill_canvas(&ls, width, height)
}

/// Reads a canvas from PPM text (see `ppm_outcome`): the magic number `P3`,
/// the width and height, the scale 255, then three channel values from 0
/// to 255 per pixel, filling the canvas row by row. Blank lines and lines
/// starting with `#` are skipped; a pixel's channels may span lines.
pub fn canvas_from_ppm(text: &str) -> (r: Result<Canvas, ParseError>)
    requires
        !(ppm_outcome(text@) is Refused),
    ensures
        ppm_result_matches(r, ppm_outcome(text@)),
{
    let chars = chars_of(text);
    match read_ppm(&chars) {
        Some(r) => r,
        None => {
            proof {
                assert(false);
            }
            Err(ParseError::IncorrectFormat(String::new()))
        },
    }
}

/// Whether `canvas_from_ppm` refuses the text: it runs out before the
/// third line that carries content (when the lines before are well
/// formed), or it holds more pixels than the canvas it describes.
pub fn ppm_is_refused(text: &str) -> (b: bool)
    ensures
        b == (ppm_outcome(text@) is Refused),
{
    let chars = chars_of(text);
    read_ppm(&chars).is_none()
}

/// Writing a pixel and reading it back gives the color written, and leaves
/// every other pixel as it was.
pub proof fn lemma_write_then_read(
    pixels: Seq<Seq<Color>>,
    x: int,
    y: int,
    color: Color,
    x2: int,
    y2: int,
)
    requires
        0 <= y < pixels.len(),
        0 <= x < pixels[y].len(),
        0 <= y2 < pixels.len(),
        0 <= x2 < pixels[y2].len(),
    ensures
        pixels.update(y, pixels[y].update(x, color))[y][x] == color,
        (x2 != x || y2 != y) ==> pixels.update(y, pixels[y].update(x, color))[y2][x2]
            == pixels[y2][x2],
{
}

/// Whether, starting with a line that already holds `cur` characters,
/// every line of `s` holds at most `n` characters (line breaks not
/// counted).
pub open spec fn lines_within(s: Seq<char>, cur: nat, n: nat) -> bool
    decreases s.len(),
{
    if s.len() == 0 {
        true
    } else if s[0] == '\n' {
        lines_within(s.drop_first(), 0, n)
    } else {
        cur + 1 <= n && lines_within(s.drop_first(), cur + 1, n)
    }
}

/// Whether `s` holds no line break.
pub open spec fn no_break(s: Seq<char>) -> bool {
    forall|i: int| 0 <= i < s.len() ==> s[i] != '\n'
}

proof fn lemma_line_then_rest(p: Seq<char>, rest: Seq<char>, cur: nat, n: nat)
    requires
        no_break(p),
        cur + p.len() <= n,
        lines_within(rest, 0, n),
    ensures
        lines_within(p.push('\n') + rest, cur, n),
    decreases p.len(),
{
    let s = p.push('\n') + rest;
    if p.len() == 0 {
        assert(s[0] == '\n');
        assert(s.drop_first() =~= rest);
    } else {
        assert(s[0] == p[0]);
        assert(s.drop_first() =~= p.drop_first().push('\n') + rest);
        lemma_line_then_rest(p.drop_first(), rest, cur + 1, n);
    }
}

proof fn lemma_lines_concat(a: Seq<char>, b: Seq<char>, cur: nat, n: nat)
    requires
        lines_within(a, cur, n),
        a.len() > 0 ==> a.last() == '\n',
        lines_within(b, 0, n),
        a.len() == 0 ==> cur == 0,
    ensures
        lines_within(a + b, cur, n),
    decreases a.len(),
{
    if a.len() == 0 {
        assert(a + b =~= b);
    } else {
        assert((a + b).drop_first() =~= a.drop_first() + b);
        if a[0] == '\n' {
            if a.len() > 1 {
                lemma_lines_concat(a.drop_first(), b, 0, n);
            } else {
                assert(a.drop_first() + b =~= b);
            }
        } else {
            assert(a.len() > 1);
            lemma_lines_concat(a.drop_first(), b, cur + 1, n);
        }
    }
}

proof fn lemma_decimal_short(v: nat)
    requires
        v < 1000,
    ensures
        decimal(v).len() <= 3,
        v < 100 ==> decimal(v).len() <= 2,
        v < 10 ==> decimal(v).len() == 1,
        decimal(v).len() >= 1,
        no_break(decimal(v)),
    decreases v,
{
    if v >= 10 {
        lemma_decimal_short(v / 10);
        assert(v / 10 < 100);
        assert(v < 100 ==> v / 10 < 10);
        let d = decimal(v / 10);
        assert forall|i: int| 0 <= i < decimal(v).len() implies decimal(v)[i] != '\n' by {
            if i < d.len() {
                assert(decimal(v)[i] == d[i]);
            } else {
                assert(decimal(v)[i] == digit_char((v % 10) as int));
            }
        }
    }
}

/// Whether every numeral is short (at most three characters) and holds no
/// line break.
pub open spec fn short_tokens(t: Seq<Seq<char>>) -> bool {
    forall|k: int| 0 <= k < t.len() ==> (#[trigger] t[k]).len() <= 3 && no_break(t[k])
}

proof fn lemma_layout_lines(t: Seq<Seq<char>>, line: Seq<char>)
    requires
        short_tokens(t),
        no_break(line),
        line.len() <= 67 || (t.len() == 0 && line.len() <= 70),
    ensures
        lines_within(layout(t, line), 0, 70),
    decreases t.len(),
{
    if t.len() == 0 {
        if line.len() > 0 {
            lemma_line_then_rest(line, Seq::empty(), 0, 70);
            assert(line.push('\n') + Seq::<char>::empty() =~= line.push('\n'));
        }
    } else {
        let l2 = line + t[0];
        assert(t[0].len() <= 3 && no_break(t[0]));
        assert(no_break(l2)) by {
            assert forall|i: int| 0 <= i < l2.len() implies l2[i] != '\n' by {
                if i < line.len() {
                    assert(l2[i] == line[i]);
                } else {
                    assert(l2[i] == t[0][i - line.len()]);
                }
            }
        }
        let rest = t.drop_first();
        assert(short_tokens(rest)) by {
            assert forall|k: int| 0 <= k < rest.len() implies (#[trigger] rest[k]).len() <= 3
                && no_break(rest[k]) by {
                assert(rest[k] == t[k + 1]);
            }
        }
        if t.len() == 1 {
            lemma_layout_lines(rest, l2);
        } else if l2.len() < 67 {
            let l3 = l2.push(' ');
            assert(no_break(l3)) by {
                assert forall|i: int| 0 <= i < l3.len() implies l3[i] != '\n' by {
                    if i < l2.len() {
                        assert(l3[i] == l2[i]);
                    }
                }
            }
            lemma_layout_lines(rest, l3);
        } else {
            lemma_layout_lines(rest, Seq::empty());
            lemma_line_then_rest(l2, layout(rest, Seq::empty()), 0, 70);
        }
    }
}

proof fn lemma_layout_ends_with_break(t: Seq<Seq<char>>, line: Seq<char>)
    ensures
        layout(t, line).len() > 0 ==> layout(t, line).last() == '\n',
    decreases t.len(),
{
    if t.len() > 0 {
        let l2 = line + t[0];
        lemma_layout_ends_with_break(t.drop_first(), l2);
        lemma_layout_ends_with_break(t.drop_first(), l2.push(' '));
        lemma_layout_ends_with_break(t.drop_first(), Seq::empty());
        if t.len() > 1 && l2.len() >= 67 {
            let r = layout(t.drop_first(), Seq::empty());
            if r.len() == 0 {
                assert(l2.push('\n') + r =~= l2.push('\n'));
            } else {
                assert((l2.push('\n') + r).last() == r.last());
            }
        }
    }
}

proof fn lemma_rows_lines(rows: Seq<Seq<Color>>)
    ensures
        lines_within(rows_text(rows), 0, 70),
        rows_text(rows).len() > 0 ==> rows_text(rows).last() == '\n',
    decreases rows.len(),
{
    if rows.len() > 0 {
        lemma_rows_lines(rows.drop_last());
        let t = row_tokens(rows.last());
        assert(short_tokens(t)) by {
            assert forall|k: int| 0 <= k < t.len() implies (#[trigger] t[k]).len() <= 3 && no_break(
                t[k],
            ) by {
                let c = rows.last()[k / 3];
                let j = k % 3;
                let v = scale_color_spec(
                    if j == 0 {
                        c.r as int
                    } else if j == 1 {
                        c.g as int
                    } else {
                        c.b as int
                    },
                );
                lemma_decimal_short(v as nat);
            }
        }
        lemma_layout_lines(t, Seq::empty());
        lemma_layout_ends_with_break(t, Seq::empty());
        let a = rows_text(rows.drop_last());
        let b = layout(t, Seq::empty());
        lemma_lines_concat(a, b, 0, 70);
        if b.len() > 0 {
            assert((a + b).last() == b.last());
        } else {
            assert(a + b =~= a);
        }
    }
}

/// No line of the pixel data in a canvas's PPM text is longer than 70
/// characters.
pub proof fn lemma_ppm_pixel_lines_short(c: &Canvas)
    ensures
        lines_within(rows_text(c.pixels()), 0, MAX_PPM_LINE_LENGTH as nat),
{
    lemma_rows_lines(c.pixels());
}


/// The value written for channel `k` (0 red, 1 green, 2 blue) of `c`.
pub open spec fn written_value(c: Color, k: int) -> int {
    scale_color_spec(
        if k == 0 {
            c.r as int
        } else if k == 1 {
            c.g as int
        } else {
            c.b as int
        },
    )
}

/// The values written for a row: red, green and blue of each pixel in turn.
pub open spec fn row_values(row: Seq<Color>) -> Seq<int> {
    Seq::new(3 * row.len(), |k: int| written_value(row[k / 3], k % 3))
}

/// The values written for the rows, top to bottom.
pub open spec fn written_values(rows: Seq<Seq<Color>>) -> Seq<int>
    decreases rows.len(),
{
    if rows.len() == 0 {
        Seq::empty()
    } else {
        written_values(rows.drop_last()) + row_values(rows.last())
    }
}

/// The decimal numerals of the values.
pub open spec fn numerals(vals: Seq<int>) -> Seq<Seq<char>> {
    Seq::new(vals.len(), |i: int| decimal(vals[i] as nat))
}

/// Whether every value lies in `[0, 255]`.
pub open spec fn channel_values(vals: Seq<int>) -> bool {
    forall|i: int| 0 <= i < vals.len() ==> 0 <= #[trigger] vals[i] <= 255
}

/// The channel values read from the lines of `text`, and whether a line
/// holds a word that is not a channel value.
pub open spec fn read_back(text: Seq<char>) -> (Seq<int>, bool) {
    pixel_values(clean_lines(lines_of(text)))
}

proof fn lemma_clean_concat(a: Seq<Seq<char>>, b: Seq<Seq<char>>)
    ensures
        clean_lines(a + b) == clean_lines(a) + clean_lines(b),
    decreases b.len(),
{
    if b.len() == 0 {
        assert(a + b =~= a);
        assert(clean_lines(a) + clean_lines(b) =~= clean_lines(a));
    } else {
        assert((a + b).drop_last() =~= a + b.drop_last());
        assert((a + b).last() == b.last());
        lemma_clean_concat(a, b.drop_last());
        let t = trim(b.last());
        if keep_line(t) {
            assert(clean_lines(a) + clean_lines(b.drop_last()).push(t) =~= (clean_lines(a)
                + clean_lines(b.drop_last())).push(t));
        }
    }
}

proof fn lemma_pixel_values_concat(a: Seq<Seq<char>>, b: Seq<Seq<char>>)
    requires
        !pixel_values(a).1,
    ensures
        pixel_values(a + b) == (pixel_values(a).0 + pixel_values(b).0, pixel_values(b).1),
    decreases a.len(),
{
    if a.len() == 0 {
        assert(a + b =~= b);
        assert(pixel_values(a).0 + pixel_values(b).0 =~= pixel_values(b).0);
    } else {
        assert((a + b)[0] == a[0]);
        assert((a + b).drop_first() =~= a.drop_first() + b);
        let vs = line_values(words_of(a[0]))->0;
        lemma_pixel_values_concat(a.drop_first(), b);
        let pa = pixel_values(a.drop_first()).0;
        assert(vs + (pa + pixel_values(b).0) =~= (vs + pa) + pixel_values(b).0);
    }
}

proof fn lemma_line_values_numerals(vals: Seq<int>)
    requires
        channel_values(vals),
    ensures
        line_values(numerals(vals)) == Some(vals),
    decreases vals.len(),
{
    if vals.len() == 0 {
        assert(vals =~= Seq::<int>::empty());
    } else {
        let ws = numerals(vals);
        let front = vals.drop_last();
        assert(ws.drop_last() =~= numerals(front));
        assert(channel_values(front)) by {
            assert forall|i: int| 0 <= i < front.len() implies 0 <= #[trigger] front[i] <= 255 by {
                assert(front[i] == vals[i]);
            }
        }
        lemma_line_values_numerals(front);
        let v = vals.last();
        assert(0 <= v <= 255);
        lemma_numeral_of_decimal(v as nat);
        assert(ws.last() == decimal(v as nat));
        assert(front.push(v) =~= vals);
    }
}

proof fn lemma_join_push(ws: Seq<Seq<char>>, w: Seq<char>)
    ensures
        join_words(ws.push(w)) == (if ws.len() == 0 {
            w
        } else {
            join_words(ws) + seq![' '] + w
        }),
    decreases ws.len(),
{
    let all = ws.push(w);
    if ws.len() == 0 {
        assert(all.len() == 1 && all[0] == w);
    } else if ws.len() == 1 {
        assert(all.drop_first() =~= seq![w]);
        assert(join_words(seq![w]) == w);
    } else {
        assert(all.drop_first() =~= ws.drop_first().push(w));
        lemma_join_push(ws.drop_first(), w);
        assert(ws[0] + seq![' '] + (join_words(ws.drop_first()) + seq![' '] + w) =~= (ws[0] + seq![
            ' ',
        ] + join_words(ws.drop_first())) + seq![' '] + w);
    }
}

/// Whether every character is a digit or a space, and the first and last
/// are digits.
pub open spec fn digit_line(l: Seq<char>) -> bool {
    &&& l.len() > 0
    &&& forall|i: int| 0 <= i < l.len() ==> ('0' <= #[trigger] l[i] <= '9' || l[i] == ' ')
    &&& '0' <= l[0] <= '9'
    &&& '0' <= l.last() <= '9'
}

proof fn lemma_digit_line_join(vals: Seq<int>)
    requires
        vals.len() > 0,
        forall|i: int| 0 <= i < vals.len() ==> 0 <= #[trigger] vals[i],
    ensures
        digit_line(join_words(numerals(vals))),
        plain_words(numerals(vals)),
    decreases vals.len(),
{
    let ws = numerals(vals);
    let d0 = decimal(vals[0] as nat);
    crate::text::lemma_decimal_digits(vals[0] as nat);
    assert(ws[0] == d0);
    assert(plain_words(ws)) by {
        assert forall|k: int| 0 <= k < ws.len() implies (#[trigger] ws[k]).len() > 0 && forall|i: int|
            0 <= i < ws[k].len() ==> !is_ws(ws[k][i]) by {
            crate::text::lemma_decimal_digits(vals[k] as nat);
            lemma_numeral_of_decimal(vals[k] as nat);
        }
    }
    if vals.len() == 1 {
        assert(join_words(ws) == d0);
    } else {
        let rest = vals.drop_first();
        assert(ws.drop_first() =~= numerals(rest));
        lemma_digit_line_join(rest);
        let r = join_words(numerals(rest));
        let l = join_words(ws);
        assert(l =~= d0 + seq![' '] + r);
        assert forall|i: int| 0 <= i < l.len() implies ('0' <= #[trigger] l[i] <= '9' || l[i] == ' ') by {
            if i < d0.len() {
                assert(l[i] == d0[i]);
            } else if i > d0.len() {
                assert(l[i] == r[i - d0.len() - 1]);
            }
        }
        assert(l[0] == d0[0]);
        assert(l.last() == r.last());
    }
}

proof fn lemma_digit_line_clean(l: Seq<char>)
    requires
        digit_line(l),
    ensures
        trim(l) == l,
        keep_line(l),
        forall|i: int| 0 <= i < l.len() ==> l[i] != '\n',
{
    assert(!is_ws(l[0]));
    assert(trim_start(l) == l);
    assert(!is_ws(l.last()));
    assert(trim_end(l) == l);
    assert forall|i: int| 0 <= i < l.len() implies l[i] != '\n' by {
        assert('0' <= l[i] <= '9' || l[i] == ' ');
    }
}

/// A line of channel numerals, then more text.
proof fn lemma_read_line(vals: Seq<int>, rest: Seq<char>)
    requires
        vals.len() > 0,
        channel_values(vals),
    ensures
        read_back(join_words(numerals(vals)).push('\n') + rest) == (vals + read_back(rest).0, read_back(
            rest,
        ).1),
{
    let l = join_words(numerals(vals));
    lemma_digit_line_join(vals);
    lemma_digit_line_clean(l);
    lemma_lines_of_line(l, rest);
    lemma_clean_concat(seq![l], lines_of(rest));
    assert(seq![l].drop_last() =~= Seq::<Seq<char>>::empty());
    assert(seq![l].last() == l);
    assert(seq![l].len() == 1);
    assert(clean_lines(Seq::<Seq<char>>::empty()) =~= Seq::<Seq<char>>::empty());
    assert(clean_lines(seq![l]) == clean_lines(seq![l].drop_last()).push(l));
    assert(clean_lines(seq![l]) =~= seq![l]);
    lemma_words_of_join(numerals(vals), Seq::empty());
    assert(Seq::<Seq<char>>::empty() + numerals(vals) =~= numerals(vals));
    lemma_line_values_numerals(vals);
    let cl = seq![l] + clean_lines(lines_of(rest));
    assert(cl[0] == l);
    assert(cl.drop_first() =~= clean_lines(lines_of(rest)));
}


/// The words joined by single spaces, followed by a space when there are
/// any: a line that more numerals will join.
pub open spec fn open_line(ws: Seq<Seq<char>>) -> Seq<char> {
    if ws.len() == 0 {
        Seq::empty()
    } else {
        join_words(ws).push(' ')
    }
}

proof fn lemma_read_empty()
    ensures
        read_back(Seq::empty()) == (Seq::<int>::empty(), false),
{
    assert(lines_of(Seq::empty()) =~= Seq::<Seq<char>>::empty());
    assert(clean_lines(Seq::<Seq<char>>::empty()) =~= Seq::<Seq<char>>::empty());
}

proof fn lemma_channel_values_push(vals: Seq<int>, v: int)
    requires
        channel_values(vals),
        0 <= v <= 255,
    ensures
        channel_values(vals.push(v)),
{
    assert forall|i: int| 0 <= i < vals.push(v).len() implies 0 <= #[trigger] vals.push(v)[i] <= 255 by {
        if i < vals.len() {
            assert(vals.push(v)[i] == vals[i]);
        }
    }
}

/// Laying out numerals after a line that already holds the numerals of
/// `prev` reads back as `prev` followed by `vals`.
proof fn lemma_layout_read(vals: Seq<int>, prev: Seq<int>, line: Seq<char>)
    requires
        channel_values(vals),
        channel_values(prev),
        (vals.len() > 0 && line == open_line(numerals(prev))) || (vals.len() == 0 && line
            == join_words(numerals(prev))),
    ensures
        read_back(layout(numerals(vals), line)) == (prev + vals, false),
    decreases vals.len(),
{
    let t = numerals(vals);
    lemma_read_empty();
    if vals.len() == 0 {
        if prev.len() == 0 {
            assert(numerals(prev).len() == 0);
            assert(line.len() == 0);
            assert(layout(t, line) == Seq::<char>::empty());
            assert(prev + vals =~= Seq::<int>::empty());
        } else {
            lemma_digit_line_join(prev);
            assert(line.len() > 0);
            assert(layout(t, line) == line.push('\n'));
            lemma_read_line(prev, Seq::empty());
            assert(line.push('\n') + Seq::<char>::empty() =~= line.push('\n'));
            assert(prev + Seq::<int>::empty() =~= prev + vals);
        }
    } else {
        let v0 = vals[0];
        let w0 = decimal(v0 as nat);
        assert(t[0] == w0);
        let l2 = line + w0;
        let p2 = prev.push(v0);
        assert(numerals(p2) =~= numerals(prev).push(w0));
        lemma_join_push(numerals(prev), w0);
        if prev.len() == 0 {
            assert(l2 =~= w0);
        } else {
            assert(l2 =~= join_words(numerals(prev)) + seq![' '] + w0);
        }
        assert(l2 == join_words(numerals(p2)));
        let rest = vals.drop_first();
        assert(t.drop_first() =~= numerals(rest));
        assert(channel_values(rest)) by {
            assert forall|i: int| 0 <= i < rest.len() implies 0 <= #[trigger] rest[i] <= 255 by {
                assert(rest[i] == vals[i + 1]);
            }
        }
        lemma_channel_values_push(prev, v0);
        if vals.len() == 1 {
            assert(layout(t, line) == layout(numerals(rest), l2));
            lemma_layout_read(rest, p2, l2);
            assert(p2 + rest =~= prev + vals);
        } else if l2.len() < 67 {
            assert(layout(t, line) == layout(numerals(rest), l2.push(' ')));
            lemma_layout_read(rest, p2, l2.push(' '));
            assert(p2 + rest =~= prev + vals);
        } else {
            let r = layout(numerals(rest), Seq::empty());
            assert(layout(t, line) == l2.push('\n') + r);
            assert(numerals(Seq::<int>::empty()).len() == 0);
            lemma_layout_read(rest, Seq::empty(), Seq::empty());
            lemma_read_line(p2, r);
            assert(p2 + (Seq::<int>::empty() + rest) =~= prev + vals);
        }
    }
}

proof fn lemma_row_tokens(row: Seq<Color>)
    ensures
        row_tokens(row) == numerals(row_values(row)),
        channel_values(row_values(row)),
{
    assert(row_tokens(row) =~= numerals(row_values(row)));
}

/// The pixel data of the rows reads back as the values written for them.
proof fn lemma_rows_read(rows: Seq<Seq<Color>>)
    ensures
        read_back(rows_text(rows)) == (written_values(rows), false),
    decreases rows.len(),
{
    lemma_read_empty();
    if rows.len() > 0 {
        let front = rows.drop_last();
        lemma_rows_read(front);
        lemma_rows_lines(front);
        let a = rows_text(front);
        let rv = row_values(rows.last());
        lemma_row_tokens(rows.last());
        let b = layout(numerals(rv), Seq::empty());
        assert(numerals(Seq::<int>::empty()).len() == 0);
        lemma_layout_read(rv, Seq::empty(), Seq::empty());
        assert(Seq::<int>::empty() + rv =~= rv);
        lemma_lines_of_concat(a, b);
        lemma_clean_concat(lines_of(a), lines_of(b));
        lemma_pixel_values_concat(clean_lines(lines_of(a)), clean_lines(lines_of(b)));
    }
}


proof fn lemma_index_split(w: int, n: int, x: int, y: int, j: int)
    requires
        0 <= x < w,
        0 <= y < n,
        0 <= j < 3,
    ensures
        3 * (y * w + x) + j == 3 * w * y + (3 * x + j),
        y < n - 1 ==> 3 * (y * w + x) + j < 3 * w * (n - 1),
        y * w + x < w * n,
{
    assert(3 * (y * w + x) + j == 3 * w * y + (3 * x + j)) by (nonlinear_arith);
    assert(y < n - 1 ==> 3 * (y * w + x) + j < 3 * w * (n - 1)) by (nonlinear_arith)
        requires
            0 <= x < w,
            0 <= y,
            0 <= j < 3,
    ;
    assert(y * w + x < w * n) by (nonlinear_arith)
        requires
            0 <= x < w,
            0 <= y < n,
    ;
}

/// Where the value written for each channel of each pixel stands.
proof fn lemma_written_values(rows: Seq<Seq<Color>>, w: int)
    requires
        w >= 0,
        forall|y: int| 0 <= y < rows.len() ==> #[trigger] rows[y].len() == w,
    ensures
        written_values(rows).len() == 3 * w * rows.len(),
        forall|x: int, y: int, j: int|
            0 <= x < w && 0 <= y < rows.len() && 0 <= j < 3 ==> #[trigger] written_values(rows)[3 * (y
                * w + x) + j] == written_value(rows[y][x], j),
    decreases rows.len(),
{
    if rows.len() == 0 {
        assert(3 * w * rows.len() == 0);
    } else {
        let n = rows.len() as int;
        let front = rows.drop_last();
        assert forall|y: int| 0 <= y < front.len() implies #[trigger] front[y].len() == w by {
            assert(front[y] == rows[y]);
        }
        lemma_written_values(front, w);
        let v = written_values(rows);
        let vf = written_values(front);
        let rv = row_values(rows.last());
        assert(rows.last().len() == w);
        assert(3 * w * n == 3 * w * (n - 1) + 3 * w) by (nonlinear_arith);
        assert(v.len() == 3 * w * n);
        assert forall|x: int, y: int, j: int|
            0 <= x < w && 0 <= y < rows.len() && 0 <= j < 3 implies #[trigger] v[3 * (y * w + x) + j]
            == written_value(rows[y][x], j) by {
            lemma_index_split(w, n, x, y, j);
            let i = 3 * (y * w + x) + j;
            if y < n - 1 {
                assert(v[i] == vf[i]);
                assert(front[y] == rows[y]);
            } else {
                assert(v[i] == rv[3 * x + j]);
                assert((3 * x + j) / 3 == x);
                assert((3 * x + j) % 3 == j);
            }
        }
    }
}

/// Reading back the PPM text of a canvas gives a canvas of the same size
/// in which each channel of each pixel is the value written for it (the
/// channel scaled to `[0, 255]`, rounded down and clamped) read as that
/// value over 255; so channels at 0 and 1 come back exactly.
pub proof fn lemma_ppm_round_trip(c: &Canvas)
    requires
        c.wf(),
    ensures
        ppm_outcome(ppm_spec(c)) == (PpmOutcome::Image {
            width: c@.width,
            height: c@.height,
            values: written_values(c.pixels()),
        }),
        forall|x: int, y: int|
            0 <= x < c@.width && 0 <= y < c@.height ==> #[trigger] image_pixel(
                c@.width as int,
                written_values(c.pixels()),
                x,
                y,
            ) == (Color {
                r: channel_spec(scale_color_spec(c.pixel(x, y).r as int)) as i64,
                g: channel_spec(scale_color_spec(c.pixel(x, y).g as int)) as i64,
                b: channel_spec(scale_color_spec(c.pixel(x, y).b as int)) as i64,
            }),
{
    let w = c@.width;
    let h = c@.height;
    let rows = c.pixels();
    let body = rows_text(rows);
    let l1 = seq!['P', '3'];
    let l2 = decimal(w) + seq![' '] + decimal(h);
    let l3 = seq!['2', '5', '5'];
    // the header lines
    let dims = seq![w as int, h as int];
    assert(numerals(dims) =~= seq![decimal(w), decimal(h)]);
    assert(join_words(seq![decimal(w), decimal(h)]) =~= l2) by {
        let ws2 = seq![decimal(w), decimal(h)];
        assert(ws2.drop_first() =~= seq![decimal(h)]);
        assert(join_words(seq![decimal(h)]) == decimal(h));
        assert(join_words(ws2) == ws2[0] + seq![' '] + join_words(ws2.drop_first()));
    }
    lemma_digit_line_join(dims);
    lemma_digit_line_clean(l2);
    assert(l3 =~= decimal(255)) by {
        reveal_with_fuel(decimal, 3);
        assert(digit_char(2) == '2');
        assert(digit_char(5) == '5');
    }
    assert(numerals(seq![255int]) =~= seq![decimal(255)]);
    assert(join_words(seq![decimal(255)]) == decimal(255));
    lemma_digit_line_join(seq![255int]);
    lemma_digit_line_clean(l3);
    assert(!is_ws('P') && !is_ws('3'));
    assert(trim_start(l1) == l1);
    assert(trim_end(l1) == l1);
    // the lines of the text
    let text = ppm_spec(c);
    assert(text =~= l1.push('\n') + (l2.push('\n') + (l3.push('\n') + body)));
    lemma_lines_of_line(l3, body);
    lemma_lines_of_line(l2, l3.push('\n') + body);
    lemma_lines_of_line(l1, l2.push('\n') + (l3.push('\n') + body));
    let head = seq![l1, l2, l3];
    assert(lines_of(text) =~= head + lines_of(body));
    lemma_clean_concat(head, lines_of(body));
    assert(head.drop_last() =~= seq![l1, l2]);
    assert(seq![l1, l2].drop_last() =~= seq![l1]);
    assert(seq![l1].drop_last() =~= Seq::<Seq<char>>::empty());
    assert(clean_lines(Seq::<Seq<char>>::empty()) =~= Seq::<Seq<char>>::empty());
    assert(clean_lines(seq![l1]) =~= seq![l1]);
    assert(clean_lines(seq![l1, l2]) =~= seq![l1, l2]);
    assert(clean_lines(head) =~= head);
    let ls = clean_lines(lines_of(text));
    assert(ls =~= head + clean_lines(lines_of(body)));
    assert(ls[0] == l1 && ls[1] == l2 && ls[2] == l3);
    assert(ls.skip(3) =~= clean_lines(lines_of(body)));
    // the size and the scale
    lemma_words_of_join(seq![decimal(w), decimal(h)], Seq::empty());
    assert(Seq::<Seq<char>>::empty() + seq![decimal(w), decimal(h)] =~= seq![decimal(w), decimal(h)]);
    assert(words_of(l2) == seq![decimal(w), decimal(h)]);
    lemma_numeral_of_decimal(w);
    lemma_numeral_of_decimal(h);
    lemma_numeral_of_decimal(255);
    // the pixels
    lemma_rows_read(rows);
    lemma_written_values(rows, w as int);
    let vals = written_values(rows);
    assert(vals.len() / 3 == w * h) by (nonlinear_arith)
        requires
            vals.len() == 3 * w * h,
    ;
    assert forall|x: int, y: int|
        0 <= x < w && 0 <= y < h implies #[trigger] image_pixel(w as int, vals, x, y) == (Color {
        r: channel_spec(scale_color_spec(c.pixel(x, y).r as int)) as i64,
        g: channel_spec(scale_color_spec(c.pixel(x, y).g as int)) as i64,
        b: channel_spec(scale_color_spec(c.pixel(x, y).b as int)) as i64,
    }) by {
        lemma_index_split(w as int, h as int, x, y, 0);
        assert(vals[3 * (y * w + x) + 0] == written_value(rows[y][x], 0));
        assert(vals[3 * (y * w + x) + 1] == written_value(rows[y][x], 1));
        assert(vals[3 * (y * w + x) + 2] == written_value(rows[y][x], 2));
    }
}

} // verus!
