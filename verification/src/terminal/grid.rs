//! The screen of a terminal.
//!
//! The screen has a fixed size; lines that scroll off it are kept. What a byte
//! stream means is told by events: a character to show, a control character, or
//! a control sequence with its parameters.

use vstd::prelude::*;
use crate::terminal::parser;
use crate::terminal::parser::ByteParser;

verus! {

/// A color.
#[derive(Clone, Copy, PartialEq, Eq, Structural, Debug)]
pub enum Color {
    Default,
    Indexed(u8),
    Rgb(u8, u8, u8),
}

/// How a character is shown.
#[derive(Clone, Copy, PartialEq, Eq, Structural, Debug)]
pub struct CellStyle {
    pub fg: Color,
    pub bg: Color,
    pub bold: bool,
}

/// The style that nothing has changed.
pub open spec fn plain() -> CellStyle {
    CellStyle { fg: Color::Default, bg: Color::Default, bold: false }
}

impl Default for CellStyle {
    fn default() -> (r: Self)
        ensures
            r == plain(),
    {
        CellStyle { fg: Color::Default, bg: Color::Default, bold: false }
    }
}

/// A place on the screen.
#[derive(Clone, Copy, PartialEq, Eq, Structural, Debug)]
pub struct Cell {
    pub ch: char,
    pub style: CellStyle,
}

/// An empty place.
pub open spec fn blank() -> Cell {
    Cell { ch: ' ', style: plain() }
}

impl Default for Cell {
    fn default() -> (r: Self)
        ensures
            r == blank(),
    {
        Cell { ch: ' ', style: CellStyle::default() }
    }
}

/// A line of the screen.
pub type Row = Vec<Cell>;

/// A screen.
pub struct Grid {
    pub rows: usize,
    pub cols: usize,
    pub screen: Vec<Row>,
    /// The lines that scrolled off, oldest first.
    pub scrollback: Vec<Row>,
    pub cursor_row: usize,
    pub cursor_col: usize,
    pub style: CellStyle,
}

/// The model of [`Grid`].
#[verifier::ext_equal]
pub struct GridView {
    pub rows: int,
    pub cols: int,
    pub screen: Seq<Seq<Cell>>,
    pub scrollback: Seq<Seq<Cell>>,
    pub cursor_row: int,
    pub cursor_col: int,
    pub style: CellStyle,
}

/// The models of lines.
pub open spec fn row_views(v: Seq<Row>) -> Seq<Seq<Cell>> {
    Seq::new(v.len(), |i: int| v[i]@)
}

impl View for Grid {
    type V = GridView;

    open spec fn view(&self) -> GridView {
        GridView {
            rows: self.rows as int,
            cols: self.cols as int,
            screen: row_views(self.screen@),
            scrollback: row_views(self.scrollback@),
            cursor_row: self.cursor_row as int,
            cursor_col: self.cursor_col as int,
            style: self.style,
        }
    }
}

/// An empty line.
pub open spec fn blank_line(cols: int) -> Seq<Cell> {
    Seq::new(cols as nat, |i: int| blank())
}

impl GridView {
    /// The screen has its size, and the cursor is on it or behind the end of its
    /// line.
    pub open spec fn wf(self) -> bool {
        &&& 0 <= self.rows <= usize::MAX
        &&& 0 <= self.cols <= usize::MAX
        &&& self.screen.len() == self.rows
        &&& forall|i: int| 0 <= i < self.rows ==> (#[trigger] self.screen[i]).len() == self.cols
        &&& 0 <= self.cursor_row
        &&& self.cursor_row < self.rows || (self.rows == 0 && self.cursor_row == 0)
        &&& 0 <= self.cursor_col <= self.cols
    }

    /// The screen can show something.
    pub open spec fn has_room(self) -> bool {
        self.rows > 0 && self.cols > 0
    }
}

/// An empty screen.
pub open spec fn empty_grid(rows: int, cols: int) -> GridView {
    GridView {
        rows,
        cols,
        screen: Seq::new(rows as nat, |i: int| blank_line(cols)),
        scrollback: Seq::empty(),
        cursor_row: 0,
        cursor_col: 0,
        style: plain(),
    }
}

/// A line cut or filled up to a width.
pub open spec fn fitted(line: Seq<Cell>, cols: int) -> Seq<Cell> {
    Seq::new(
        cols as nat,
        |i: int|
            if i < line.len() {
                line[i]
            } else {
                blank()
            },
    )
}

/// The last place of a width, or zero.
pub open spec fn last_place(n: int) -> int {
    if n > 0 {
        n - 1
    } else {
        0
    }
}

/// The smaller of two numbers.
pub open spec fn least(a: int, b: int) -> int {
    if a < b {
        a
    } else {
        b
    }
}

/// A screen of another size: lines are cut or filled up, lines at the bottom
/// come and go, and the cursor stays on it.
pub open spec fn resized(g: GridView, rows: int, cols: int) -> GridView {
    GridView {
        rows,
        cols,
        screen: Seq::new(
            rows as nat,
            |i: int|
                if i < g.screen.len() {
                    fitted(g.screen[i], cols)
                } else {
                    blank_line(cols)
                },
        ),
        cursor_row: if g.cursor_row >= rows {
            last_place(rows)
        } else {
            g.cursor_row
        },
        cursor_col: if g.cursor_col >= cols {
            last_place(cols)
        } else {
            g.cursor_col
        },
        ..g
    }
}

/// The cursor one line down; at the bottom the screen scrolls.
pub open spec fn fed(g: GridView) -> GridView {
    if g.cursor_row + 1 >= g.rows {
        GridView {
            screen: g.screen.skip(1).push(blank_line(g.cols)),
            scrollback: g.scrollback.push(g.screen[0]),
            ..g
        }
    } else {
        GridView { cursor_row: g.cursor_row + 1, ..g }
    }
}

/// A screen with one place changed.
pub open spec fn placed(g: GridView, row: int, col: int, c: Cell) -> GridView {
    GridView { screen: g.screen.update(row, g.screen[row].update(col, c)), ..g }
}

/// A character at the cursor, which goes on to the next place; behind the end
/// of a line it goes to the next line first.
pub open spec fn printed(g: GridView, ch: char) -> GridView {
    let at = if g.cursor_col >= g.cols {
        fed(GridView { cursor_col: 0, ..g })
    } else {
        g
    };
    GridView {
        cursor_col: at.cursor_col + 1,
        ..placed(at, at.cursor_row, at.cursor_col, Cell { ch, style: at.style })
    }
}

/// Whether a screen with so many lines can act on a control character: for a
/// line feed it needs one.
pub open spec fn control_fits(rows: int, byte: u8) -> bool {
    byte == 10 ==> rows > 0
}

/// What a control character does.
pub open spec fn controlled(g: GridView, byte: u8) -> GridView {
    if byte == 10 {
        fed(g)
    } else if byte == 13 {
        GridView { cursor_col: 0, ..g }
    } else if byte == 8 {
        GridView {
            cursor_col: if g.cursor_col > 0 {
                g.cursor_col - 1
            } else {
                0
            },
            ..g
        }
    } else if byte == 9 {
        GridView { cursor_col: least((g.cursor_col / 8 + 1) * 8, last_place(g.cols)), ..g }
    } else {
        g
    }
}

/// The first value of the parameter at `i`, or `default` where it is not there.
pub open spec fn param(params: Seq<Seq<u16>>, i: int, default: u16) -> u16 {
    if 0 <= i < params.len() && params[i].len() > 0 {
        params[i][0]
    } else {
        default
    }
}

/// How often a sequence acts: once at least.
pub open spec fn times(params: Seq<Seq<u16>>) -> int {
    if param(params, 0, 0) < 1 {
        1
    } else {
        param(params, 0, 0) as int
    }
}

/// A place that a parameter names, counted from one.
pub open spec fn place(p: u16, n: int) -> int {
    least(
        if p < 1 {
            0
        } else {
            p - 1
        },
        last_place(n),
    )
}

/// A line with the places from `from` to before `to` emptied.
pub open spec fn wiped(line: Seq<Cell>, from: int, to: int) -> Seq<Cell> {
    Seq::new(
        line.len(),
        |i: int|
            if from <= i < to {
                blank()
            } else {
                line[i]
            },
    )
}

/// A screen with the lines from `from` to before `to` emptied.
pub open spec fn cleared(g: GridView, from: int, to: int) -> GridView {
    GridView {
        screen: Seq::new(
            g.screen.len(),
            |i: int|
                if from <= i < to {
                    blank_line(g.cols)
                } else {
                    g.screen[i]
                },
        ),
        ..g
    }
}

/// Whether there is what a sequence wants to empty of the cursor's line.
pub open spec fn line_erasable(rows: int, cols: int, mode: u16) -> bool {
    if mode == 0 {
        rows > 0 || cols == 0
    } else if mode == 1 {
        rows > 0 && cols > 0
    } else if mode == 2 {
        rows > 0
    } else {
        true
    }
}

/// Whether there is what a sequence wants to empty of the screen.
pub open spec fn screen_erasable(rows: int, cols: int, mode: u16) -> bool {
    mode <= 1 ==> line_erasable(rows, cols, mode)
}

/// Whether a screen of a size can act on a sequence: one that empties or takes
/// out places needs them.
pub open spec fn sequence_fits(rows: int, cols: int, params: Seq<Seq<u16>>, action: char) -> bool {
    let mode = param(params, 0, 0);
    &&& action == 'J' ==> screen_erasable(rows, cols, mode)
    &&& action == 'K' ==> line_erasable(rows, cols, mode)
    &&& action == 'P' ==> rows > 0
}

/// A screen with part of the cursor's line emptied: behind the cursor and at
/// it, before it and at it, or all.
pub open spec fn line_erased(g: GridView, mode: u16) -> GridView {
    let line = g.screen[g.cursor_row];
    if mode == 0 && g.rows > 0 {
        GridView {
            screen: g.screen.update(g.cursor_row, wiped(line, g.cursor_col, g.cols)),
            ..g
        }
    } else if mode == 1 {
        GridView {
            screen: g.screen.update(
                g.cursor_row,
                wiped(line, 0, least(g.cursor_col, g.cols - 1) + 1),
            ),
            ..g
        }
    } else if mode == 2 {
        GridView { screen: g.screen.update(g.cursor_row, blank_line(g.cols)), ..g }
    } else {
        g
    }
}

/// A screen with part of it emptied: from the cursor on, up to the cursor, or
/// all.
pub open spec fn screen_erased(g: GridView, mode: u16) -> GridView {
    if mode == 0 {
        cleared(line_erased(g, 0), g.cursor_row + 1, g.rows)
    } else if mode == 1 {
        line_erased(cleared(g, 0, g.cursor_row), 1)
    } else if mode == 2 || mode == 3 {
        cleared(g, 0, g.rows)
    } else {
        g
    }
}

/// A line with `n` places taken out at `col`: what is behind moves up, and the
/// end is filled with empty places.
pub open spec fn cut_out(line: Seq<Cell>, col: int, n: int) -> Seq<Cell> {
    Seq::new(
        line.len(),
        |i: int|
            if i < col {
                line[i]
            } else if i + n < line.len() {
                line[i + n]
            } else {
                blank()
            },
    )
}

/// The value of a color parameter.
pub open spec fn color_value(p: u16) -> u8 {
    (p % 256) as u8
}

/// The color that the parameters from `i` on name, and where they end: `5` and
/// an index, or `2` and three values. A color that they do not name is none.
pub open spec fn named_color(params: Seq<Seq<u16>>, i: int) -> (Option<Color>, int) {
    if i >= params.len() {
        (None, i)
    } else if params[i].len() > 0 && params[i][0] == 5 {
        if i + 1 < params.len() && params[i + 1].len() > 0 {
            (Some(Color::Indexed(color_value(params[i + 1][0]))), i + 2)
        } else {
            (None, least(i + 2, params.len() as int))
        }
    } else if params[i].len() > 0 && params[i][0] == 2 {
        (
            Some(
                Color::Rgb(
                    color_value(param(params, i + 1, 0)),
                    color_value(param(params, i + 2, 0)),
                    color_value(param(params, i + 3, 0)),
                ),
            ),
            least(i + 4, params.len() as int),
        )
    } else {
        (None, i + 1)
    }
}

/// What one code does to a style, other than the two that name a color.
pub open spec fn coded(s: CellStyle, code: u16) -> CellStyle {
    if code == 0 {
        plain()
    } else if code == 1 {
        CellStyle { bold: true, ..s }
    } else if code == 22 {
        CellStyle { bold: false, ..s }
    } else if 30 <= code <= 37 {
        CellStyle { fg: Color::Indexed((code - 30) as u8), ..s }
    } else if code == 39 {
        CellStyle { fg: Color::Default, ..s }
    } else if 40 <= code <= 47 {
        CellStyle { bg: Color::Indexed((code - 40) as u8), ..s }
    } else if code == 49 {
        CellStyle { bg: Color::Default, ..s }
    } else if 90 <= code <= 97 {
        CellStyle { fg: Color::Indexed((code - 82) as u8), ..s }
    } else if 100 <= code <= 107 {
        CellStyle { bg: Color::Indexed((code - 92) as u8), ..s }
    } else {
        s
    }
}

/// What the parameters from `i` on do to a style, one after the other.
pub open spec fn restyled(s: CellStyle, params: Seq<Seq<u16>>, i: int) -> CellStyle
    decreases params.len() - i,
{
    if i < 0 || i >= params.len() {
        s
    } else {
        let code = param(params, i, 0);
        if code == 38 || code == 48 {
            let (color, next) = named_color(params, i + 1);
            let changed = match color {
                None => s,
                Some(c) => if code == 38 {
                    CellStyle { fg: c, ..s }
                } else {
                    CellStyle { bg: c, ..s }
                },
            };
            restyled(changed, params, if next > i {
                next
            } else {
                i + 1
            })
        } else {
            restyled(coded(s, code), params, i + 1)
        }
    }
}

/// What a control sequence does.
pub open spec fn sequenced(g: GridView, params: Seq<Seq<u16>>, action: char) -> GridView {
    let n = times(params);
    if action == 'A' {
        GridView {
            cursor_row: if g.cursor_row > n {
                g.cursor_row - n
            } else {
                0
            },
            ..g
        }
    } else if action == 'B' {
        GridView { cursor_row: least(g.cursor_row + n, last_place(g.rows)), ..g }
    } else if action == 'C' {
        GridView { cursor_col: least(g.cursor_col + n, last_place(g.cols)), ..g }
    } else if action == 'D' {
        GridView {
            cursor_col: if g.cursor_col > n {
                g.cursor_col - n
            } else {
                0
            },
            ..g
        }
    } else if action == 'H' || action == 'f' {
        GridView {
            cursor_row: place(param(params, 0, 1), g.rows),
            cursor_col: place(param(params, 1, 1), g.cols),
            ..g
        }
    } else if action == 'J' {
        screen_erased(g, param(params, 0, 0))
    } else if action == 'K' {
        line_erased(g, param(params, 0, 0))
    } else if action == 'P' {
        GridView {
            screen: g.screen.update(
                g.cursor_row,
                cut_out(g.screen[g.cursor_row], g.cursor_col, n),
            ),
            ..g
        }
    } else if action == 'm' {
        GridView { style: restyled(g.style, params, 0), ..g }
    } else {
        g
    }
}

/// Something in the byte stream of a terminal.
#[derive(PartialEq, Eq, Debug)]
pub enum TermEvent {
    /// A character to show.
    Print(char),
    /// A control character.
    Execute(u8),
    /// A control sequence. Each parameter has a value and may have more behind
    /// colons.
    Csi { params: Vec<Vec<u16>>, action: char },
}

/// The model of [`TermEvent`].
#[verifier::ext_equal]
pub enum EventView {
    Print(char),
    Execute(u8),
    Csi { params: Seq<Seq<u16>>, action: char },
}

/// The models of parameters.
pub open spec fn param_views(v: Seq<Vec<u16>>) -> Seq<Seq<u16>> {
    Seq::new(v.len(), |i: int| v[i]@)
}

impl View for TermEvent {
    type V = EventView;

    open spec fn view(&self) -> EventView {
        match *self {
            TermEvent::Print(c) => EventView::Print(c),
            TermEvent::Execute(b) => EventView::Execute(b),
            TermEvent::Csi { params, action } => EventView::Csi {
                params: param_views(params@),
                action,
            },
        }
    }
}

/// The models of events.
pub open spec fn event_views(v: Seq<TermEvent>) -> Seq<EventView> {
    Seq::new(v.len(), |i: int| v[i]@)
}

/// What an event does.
pub open spec fn after(g: GridView, e: EventView) -> GridView {
    match e {
        EventView::Print(c) => printed(g, c),
        EventView::Execute(b) => controlled(g, b),
        EventView::Csi { params, action } => sequenced(g, params, action),
    }
}

/// What events do, one after the other.
pub open spec fn after_all(g: GridView, events: Seq<EventView>) -> GridView
    decreases events.len(),
{
    if events.len() == 0 {
        g
    } else {
        after(after_all(g, events.drop_last()), events.last())
    }
}

fn blank_row(cols: usize) -> (r: Row)
    ensures
        r@ == blank_line(cols as int),
{
    let mut v: Row = Vec::new();
    let mut i: usize = 0;
    while i < cols
        invariant
            i <= cols,
            v@ == blank_line(i as int),
        decreases cols - i,
    {
        v.push(Cell::default());
        i += 1;
        proof {
            assert(v@ =~= blank_line(i as int));
        }
    }
    v
}

/// The first value of the parameter at `i`, or `default` where it is not there.
fn first_param(params: &Vec<Vec<u16>>, i: usize, default: u16) -> (r: u16)
    ensures
        r == param(param_views(params@), i as int, default),
{
    if i < params.len() && params[i].len() > 0 {
        params[i][0]
    } else {
        default
    }
}

/// The color value `k` parameters behind `i`.
fn value_behind(params: &Vec<Vec<u16>>, i: usize, k: usize) -> (r: u8)
    requires
        i < params@.len(),
    ensures
        r == color_value(param(param_views(params@), i + k, 0)),
{
    if params.len() - i > k {
        (first_param(params, i + k, 0) % 256) as u8
    } else {
        0
    }
}

/// The place `k` parameters behind `i`, or the end.
fn place_behind(params: &Vec<Vec<u16>>, i: usize, k: usize) -> (r: usize)
    requires
        i < params@.len(),
    ensures
        r == least(i + k, params@.len() as int),
{
    if params.len() - i > k {
        i + k
    } else {
        params.len()
    }
}

fn read_color(params: &Vec<Vec<u16>>, i: usize) -> (r: (Option<Color>, usize))
    requires
        i <= params@.len(),
    ensures
        (r.0, r.1 as int) == named_color(param_views(params@), i as int),
        i <= r.1 <= params@.len(),
{
    if i >= params.len() {
        return (None, i);
    }
    if params[i].len() > 0 && params[i][0] == 5 {
        if params.len() - i > 1 && params[i + 1].len() > 0 {
            let v: u8 = (params[i + 1][0] % 256) as u8;
            return (Some(Color::Indexed(v)), i + 2);
        }
        return (None, place_behind(params, i, 2));
    }
    if params[i].len() > 0 && params[i][0] == 2 {
        let red = value_behind(params, i, 1);
        let green = value_behind(params, i, 2);
        let blue = value_behind(params, i, 3);
        return (Some(Color::Rgb(red, green, blue)), place_behind(params, i, 4));
    }
    (None, i + 1)
}

fn apply_code(style: CellStyle, code: u16) -> (r: CellStyle)
    ensures
        r == coded(style, code),
{
    let mut s = style;
    if code == 0 {
        s = CellStyle::default();
    } else if code == 1 {
        s.bold = true;
    } else if code == 22 {
        s.bold = false;
    } else if 30 <= code && code <= 37 {
        s.fg = Color::Indexed((code - 30) as u8);
    } else if code == 39 {
        s.fg = Color::Default;
    } else if 40 <= code && code <= 47 {
        s.bg = Color::Indexed((code - 40) as u8);
    } else if code == 49 {
        s.bg = Color::Default;
    } else if 90 <= code && code <= 97 {
        s.fg = Color::Indexed((code - 90 + 8) as u8);
    } else if 100 <= code && code <= 107 {
        s.bg = Color::Indexed((code - 100 + 8) as u8);
    }
    s
}

/// Changes a style by the parameters of a sequence.
pub fn apply_sgr(style: &mut CellStyle, params: &Vec<Vec<u16>>)
    ensures
        *final(style) == restyled(*old(style), param_views(params@), 0),
{
    let ghost start = *style;
    let mut i: usize = 0;
    while i < params.len()
        invariant
            i <= params@.len(),
            restyled(start, param_views(params@), 0) == restyled(
                *style,
                param_views(params@),
                i as int,
            ),
        decreases params@.len() - i,
    {
        let code = first_param(params, i, 0);
        if code == 38 || code == 48 {
            let (color, next) = read_color(params, i + 1);
            match color {
                Some(c) => {
                    if code == 38 {
                        style.fg = c;
                    } else {
                        style.bg = c;
                    }
                },
                None => {},
            }
            i = next;
        } else {
            *style = apply_code(*style, code);
            i += 1;
        }
    }
}

proof fn lemma_rows_update(v: Seq<Row>, i: int, row: Row)
    requires
        0 <= i < v.len(),
    ensures
        row_views(v.update(i, row)) == row_views(v).update(i, row@),
{
    assert(row_views(v.update(i, row)) =~= row_views(v).update(i, row@));
}

proof fn lemma_rows_push(v: Seq<Row>, row: Row)
    ensures
        row_views(v.push(row)) == row_views(v).push(row@),
{
    assert(row_views(v.push(row)) =~= row_views(v).push(row@));
}

/// The last place of a width, or zero.
fn last_of(n: usize) -> (r: usize)
    ensures
        r == last_place(n as int),
{
    if n > 0 {
        n - 1
    } else {
        0
    }
}

impl Grid {
    /// An empty screen.
    pub fn new(rows: usize, cols: usize) -> (r: Self)
        ensures
            r@ == empty_grid(rows as int, cols as int),
            r@.wf(),
    {
        let mut screen: Vec<Row> = Vec::new();
        let mut i: usize = 0;
        while i < rows
            invariant
                i <= rows,
                row_views(screen@) == Seq::new(i as nat, |j: int| blank_line(cols as int)),
            decreases rows - i,
        {
            let row = blank_row(cols);
            proof {
                lemma_rows_push(screen@, row);
            }
            screen.push(row);
            i += 1;
            proof {
                assert(row_views(screen@) =~= Seq::new(i as nat, |j: int| blank_line(cols as int)));
            }
        }
        let r = Grid {
            rows,
            cols,
            screen,
            scrollback: Vec::new(),
            cursor_row: 0,
            cursor_col: 0,
            style: CellStyle::default(),
        };
        proof {
            assert(r@.scrollback =~= Seq::empty());
        }
        r
    }

    /// Changes the size of the screen.
    pub fn resize(&mut self, rows: usize, cols: usize)
        requires
            old(self)@.screen.len() == old(self)@.rows,
        ensures
            final(self)@ == resized(old(self)@, rows as int, cols as int),
            final(self)@.wf(),
    {
        let ghost g = self@;
        let mut screen: Vec<Row> = Vec::new();
        let mut i: usize = 0;
        while i < rows
            invariant
                i <= rows,
                self@ == g,
                screen@.len() == i,
                forall|j: int|
                    0 <= j < i ==> (#[trigger] screen@[j])@ == (if j < g.screen.len() {
                        fitted(g.screen[j], cols as int)
                    } else {
                        blank_line(cols as int)
                    }),
            decreases rows - i,
        {
            let mut row: Row = Vec::new();
            if i < self.screen.len() {
                let ghost line = g.screen[i as int];
                let mut c: usize = 0;
                while c < cols
                    invariant
                        c <= cols,
                        i < self.screen@.len(),
                        self@ == g,
                        line == g.screen[i as int],
                        row@ == fitted(line, c as int),
                    decreases cols - c,
                {
                    proof {
                        assert(line == self.screen@[i as int]@);
                    }
                    if c < self.screen[i].len() {
                        row.push(self.screen[i][c]);
                    } else {
                        row.push(Cell::default());
                    }
                    c += 1;
                    proof {
                        assert(row@ =~= fitted(line, c as int));
                    }
                }
            } else {
                row = blank_row(cols);
            }
            screen.push(row);
            i += 1;
        }
        self.screen = screen;
        self.rows = rows;
        self.cols = cols;
        if self.cursor_row >= rows {
            self.cursor_row = if rows > 0 {
                rows - 1
            } else {
                0
            };
        }
        if self.cursor_col >= cols {
            self.cursor_col = if cols > 0 {
                cols - 1
            } else {
                0
            };
        }
        proof {
            let want = resized(g, rows as int, cols as int);
            assert(self@.screen =~= want.screen);
            assert(self@ =~= want);
        }
    }

    /// Moves the screen up by a line.
    fn scroll_up(&mut self)
        requires
            old(self)@.wf(),
            old(self)@.rows > 0,
        ensures
            final(self)@ == (GridView {
                screen: old(self)@.screen.skip(1).push(blank_line(old(self)@.cols)),
                scrollback: old(self)@.scrollback.push(old(self)@.screen[0]),
                ..old(self)@
            }),
            final(self)@.wf(),
    {
        let ghost g = self@;
        let ghost s0 = self.screen@;
        let row = self.screen.remove(0);
        proof {
            assert(row_views(self.screen@) =~= g.screen.skip(1));
            assert(row@ == g.screen[0]);
            lemma_rows_push(self.scrollback@, row);
        }
        self.scrollback.push(row);
        let line = blank_row(self.cols);
        proof {
            lemma_rows_push(self.screen@, line);
        }
        self.screen.push(line);
        proof {
            assert(self@.scrollback == g.scrollback.push(g.screen[0]));
            assert(self@.screen =~= g.screen.skip(1).push(blank_line(g.cols)));
            assert forall|i: int| 0 <= i < self@.rows implies (#[trigger] self@.screen[i]).len()
                == self@.cols by {
                if i < g.rows - 1 {
                    assert(self@.screen[i] == g.screen[i + 1]);
                }
            }
        }
    }

    /// Moves the cursor one line down; at the bottom the screen scrolls.
    pub fn line_feed(&mut self)
        requires
            old(self)@.wf(),
            old(self)@.rows > 0,
        ensures
            final(self)@ == fed(old(self)@),
            final(self)@.wf(),
    {
        if self.rows - self.cursor_row <= 1 {
            self.scroll_up();
        } else {
            self.cursor_row += 1;
        }
    }

    /// Puts a cell at a place.
    fn place_cell(&mut self, row: usize, col: usize, cell: Cell)
        requires
            old(self)@.wf(),
            row < old(self)@.rows,
            col < old(self)@.cols,
        ensures
            final(self)@ == placed(old(self)@, row as int, col as int, cell),
            final(self)@.wf(),
    {
        let ghost g = self@;
        proof {
            assert(self.screen@[row as int]@ == g.screen[row as int]);
        }
        self.screen[row][col] = cell;
        proof {
            assert(self@.screen =~= g.screen.update(
                row as int,
                g.screen[row as int].update(col as int, cell),
            ));
            assert(self@ =~= placed(g, row as int, col as int, cell));
            assert forall|i: int| 0 <= i < self@.rows implies (#[trigger] self@.screen[i]).len()
                == self@.cols by {
                if i != row {
                    assert(self@.screen[i] == g.screen[i]);
                }
            }
        }
    }

    /// Shows a character at the cursor.
    pub fn put_char(&mut self, ch: char)
        requires
            old(self)@.wf(),
            old(self)@.has_room(),
        ensures
            final(self)@ == printed(old(self)@, ch),
            final(self)@.wf(),
    {
        if self.cursor_col >= self.cols {
            self.cursor_col = 0;
            self.line_feed();
        }
        let cell = Cell { ch, style: self.style };
        let row = self.cursor_row;
        let col = self.cursor_col;
        self.place_cell(row, col, cell);
        self.cursor_col += 1;
    }

    /// Acts on a control character.
    pub fn execute(&mut self, byte: u8)
        requires
            old(self)@.wf(),
            control_fits(old(self)@.rows, byte),
        ensures
            final(self)@ == controlled(old(self)@, byte),
            final(self)@.wf(),
    {
        if byte == 10 {
            self.line_feed();
        } else if byte == 13 {
            self.cursor_col = 0;
        } else if byte == 8 {
            if self.cursor_col > 0 {
                self.cursor_col -= 1;
            }
        } else if byte == 9 {
            let tab: usize = self.cursor_col / 8;
            let last: usize = last_of(self.cols);
            if tab < last / 8 {
                self.cursor_col = (tab + 1) * 8;
            } else {
                self.cursor_col = last;
            }
        }
    }

    /// Empties part of a line.
    fn wipe(&mut self, row: usize, from: usize, to: usize)
        requires
            old(self)@.wf(),
            row < old(self)@.rows,
            from <= to <= old(self)@.cols,
        ensures
            final(self)@ == (GridView {
                screen: old(self)@.screen.update(
                    row as int,
                    wiped(old(self)@.screen[row as int], from as int, to as int),
                ),
                ..old(self)@
            }),
            final(self)@.wf(),
    {
        let ghost g = self@;
        let ghost line = g.screen[row as int];
        let mut c: usize = from;
        proof {
            assert(wiped(line, from as int, from as int) =~= line);
            assert(g.screen.update(row as int, line) =~= g.screen);
        }
        while c < to
            invariant
                from <= c <= to,
                to <= g.cols,
                row < g.rows,
                g.wf(),
                line == g.screen[row as int],
                self@.wf(),
                self@ == (GridView {
                    screen: g.screen.update(row as int, wiped(line, from as int, c as int)),
                    ..g
                }),
            decreases to - c,
        {
            let ghost before = self@;
            self.place_cell(row, c, Cell::default());
            c += 1;
            proof {
                assert(before.screen[row as int] == wiped(line, from as int, c - 1));
                assert(wiped(line, from as int, c - 1).update(c - 1, blank()) =~= wiped(
                    line,
                    from as int,
                    c as int,
                ));
                assert(self@.screen =~= g.screen.update(
                    row as int,
                    wiped(line, from as int, c as int),
                ));
            }
        }
    }

    /// Empties lines.
    fn clear_rows(&mut self, from: usize, to: usize)
        requires
            old(self)@.wf(),
            to <= old(self)@.rows,
        ensures
            final(self)@ == cleared(old(self)@, from as int, to as int),
            final(self)@.wf(),
    {
        let ghost g = self@;
        let mut r: usize = from;
        proof {
            assert(cleared(g, from as int, from as int) =~= g);
        }
        if from > to {
            proof {
                assert(cleared(g, from as int, to as int) =~= g);
            }
            return;
        }
        while r < to
            invariant
                from <= r <= to,
                to <= g.rows,
                g.wf(),
                self@.wf(),
                self@ == cleared(g, from as int, r as int),
            decreases to - r,
        {
            let line = blank_row(self.cols);
            proof {
                lemma_rows_update(self.screen@, r as int, line);
            }
            let ghost before = self@;
            self.screen.set(r, line);
            r += 1;
            proof {
                assert(self@.screen =~= cleared(g, from as int, r as int).screen);
                assert forall|i: int| 0 <= i < self@.rows implies (
                #[trigger] self@.screen[i]).len() == self@.cols by {
                    if i != r - 1 {
                        assert(self@.screen[i] == before.screen[i]);
                    }
                }
            }
        }
    }

    /// Empties part of the cursor's line.
    fn erase_line(&mut self, mode: u16)
        requires
            old(self)@.wf(),
            line_erasable(old(self)@.rows, old(self)@.cols, mode),
        ensures
            final(self)@ == line_erased(old(self)@, mode),
            final(self)@.wf(),
    {
        let row = self.cursor_row;
        if mode == 0 {
            if self.rows > 0 {
                let from = self.cursor_col;
                let to = self.cols;
                self.wipe(row, from, to);
            }
        } else if mode == 1 {
            let to: usize = if self.cursor_col < self.cols - 1 {
                self.cursor_col + 1
            } else {
                self.cols
            };
            self.wipe(row, 0, to);
        } else if mode == 2 {
            let ghost g = self@;
            self.clear_rows(row, row + 1);
            proof {
                assert(self@.screen =~= g.screen.update(row as int, blank_line(g.cols)));
            }
        }
    }

    /// Empties part of the screen.
    fn erase_screen(&mut self, mode: u16)
        requires
            old(self)@.wf(),
            screen_erasable(old(self)@.rows, old(self)@.cols, mode),
        ensures
            final(self)@ == screen_erased(old(self)@, mode),
            final(self)@.wf(),
    {
        if mode == 0 {
            self.erase_line(0);
            let from = self.cursor_row + 1;
            let to = self.rows;
            self.clear_rows(from, to);
        } else if mode == 1 {
            let to = self.cursor_row;
            self.clear_rows(0, to);
            self.erase_line(1);
        } else if mode == 2 || mode == 3 {
            let to = self.rows;
            self.clear_rows(0, to);
        }
    }

    /// Takes places out of the cursor's line.
    fn delete_chars(&mut self, n: usize)
        requires
            old(self)@.wf(),
            old(self)@.rows > 0,
            0 < n <= 65535,
        ensures
            final(self)@ == (GridView {
                screen: old(self)@.screen.update(
                    old(self)@.cursor_row,
                    cut_out(
                        old(self)@.screen[old(self)@.cursor_row],
                        old(self)@.cursor_col,
                        n as int,
                    ),
                ),
                ..old(self)@
            }),
            final(self)@.wf(),
    {
        let ghost g = self@;
        let row = self.cursor_row;
        let col = self.cursor_col;
        let cols = self.cols;
        let ghost line = g.screen[row as int];
        proof {
            assert(self.screen@[row as int]@ == line);
        }
        let mut out: Row = Vec::new();
        let mut i: usize = 0;
        while i < cols
            invariant
                i <= cols,
                cols == g.cols,
                row < self.screen@.len(),
                self@ == g,
                line.len() == cols,
                self.screen@[row as int]@ == line,
                out@ == cut_out(line, col as int, n as int).take(i as int),
                0 < n <= 65535,
            decreases cols - i,
        {
            if i < col {
                out.push(self.screen[row][i]);
            } else if n < cols - i {
                out.push(self.screen[row][i + n]);
            } else {
                out.push(Cell::default());
            }
            i += 1;
            proof {
                assert(out@ =~= cut_out(line, col as int, n as int).take(i as int));
            }
        }
        proof {
            assert(out@ =~= cut_out(line, col as int, n as int));
            lemma_rows_update(self.screen@, row as int, out);
        }
        self.screen.set(row, out);
        proof {
            assert forall|k: int| 0 <= k < self@.rows implies (#[trigger] self@.screen[k]).len()
                == self@.cols by {
                if k != row {
                    assert(self@.screen[k] == g.screen[k]);
                }
            }
        }
    }

    /// Acts on a control sequence.
    pub fn csi_dispatch(&mut self, params: &Vec<Vec<u16>>, action: char)
        requires
            old(self)@.wf(),
            sequence_fits(old(self)@.rows, old(self)@.cols, param_views(params@), action),
        ensures
            final(self)@ == sequenced(old(self)@, param_views(params@), action),
            final(self)@.wf(),
    {
        let first = first_param(params, 0, 0);
        let n: usize = if first < 1 {
            1
        } else {
            first as usize
        };
        if action == 'A' {
            self.cursor_row = if self.cursor_row > n {
                self.cursor_row - n
            } else {
                0
            };
        } else if action == 'B' {
            let last = last_of(self.rows);
            self.cursor_row = if n <= last - self.cursor_row {
                self.cursor_row + n
            } else {
                last
            };
        } else if action == 'C' {
            let last = last_of(self.cols);
            self.cursor_col = if self.cursor_col <= last && n <= last - self.cursor_col {
                self.cursor_col + n
            } else {
                last
            };
        } else if action == 'D' {
            self.cursor_col = if self.cursor_col > n {
                self.cursor_col - n
            } else {
                0
            };
        } else if action == 'H' || action == 'f' {
            let r = first_param(params, 0, 1);
            let c = first_param(params, 1, 1);
            let row: usize = if r < 1 {
                0
            } else {
                r as usize - 1
            };
            let col: usize = if c < 1 {
                0
            } else {
                c as usize - 1
            };
            let bottom = last_of(self.rows);
            let right = last_of(self.cols);
            self.cursor_row = if row < bottom {
                row
            } else {
                bottom
            };
            self.cursor_col = if col < right {
                col
            } else {
                right
            };
        } else if action == 'J' {
            self.erase_screen(first);
        } else if action == 'K' {
            self.erase_line(first);
        } else if action == 'P' {
            self.delete_chars(n);
        } else if action == 'm' {
            let mut style = self.style;
            apply_sgr(&mut style, params);
            self.style = style;
        }
    }

    /// All lines, those that scrolled off first.
    pub fn visible_rows(&self) -> (r: Vec<&Row>)
        ensures
            r@.len() == self@.scrollback.len() + self@.screen.len(),
            forall|i: int|
                0 <= i < r@.len() ==> (#[trigger] r@[i])@ == (self@.scrollback
                    + self@.screen)[i],
    {
        let ghost all = self@.scrollback + self@.screen;
        let mut out: Vec<&Row> = Vec::new();
        let mut i: usize = 0;
        while i < self.scrollback.len()
            invariant
                i <= self.scrollback@.len(),
                all == self@.scrollback + self@.screen,
                out@.len() == i,
                forall|j: int| 0 <= j < i ==> (#[trigger] out@[j])@ == all[j],
            decreases self.scrollback@.len() - i,
        {
            out.push(&self.scrollback[i]);
            i += 1;
        }
        let mut k: usize = 0;
        while k < self.screen.len()
            invariant
                k <= self.screen@.len(),
                all == self@.scrollback + self@.screen,
                out@.len() == self.scrollback@.len() + k,
                forall|j: int| 0 <= j < out@.len() ==> (#[trigger] out@[j])@ == all[j],
            decreases self.screen@.len() - k,
        {
            out.push(&self.screen[k]);
            k += 1;
        }
        out
    }
}

/// Whether a screen of a size can act on an event.
pub open spec fn event_fits(rows: int, cols: int, e: EventView) -> bool {
    match e {
        EventView::Print(_) => rows > 0 && cols > 0,
        EventView::Execute(b) => control_fits(rows, b),
        EventView::Csi { params, action } => sequence_fits(rows, cols, params, action),
    }
}

/// Whether a screen of a size can act on each of the events.
pub open spec fn events_fit(rows: int, cols: int, events: Seq<EventView>) -> bool {
    forall|i: int| 0 <= i < events.len() ==> event_fits(rows, cols, #[trigger] events[i])
}

impl TermEvent {
    /// Whether a screen of a size can act on the event.
    fn fits(&self, rows: usize, cols: usize) -> (r: bool)
        ensures
            r == event_fits(rows as int, cols as int, self@),
    {
        match self {
            TermEvent::Print(_) => rows > 0 && cols > 0,
            TermEvent::Execute(b) => *b != 10 || rows > 0,
            TermEvent::Csi { params, action } => {
                let mode = first_param(params, 0, 0);
                if (*action == 'J' || *action == 'K') && mode == 0 {
                    rows > 0 || cols == 0
                } else if (*action == 'J' || *action == 'K') && mode == 1 {
                    rows > 0 && cols > 0
                } else if (*action == 'K' && mode == 2) || *action == 'P' {
                    rows > 0
                } else {
                    true
                }
            },
        }
    }
}

/// Whether a screen of a size can act on each of the events.
fn all_fit(events: &Vec<TermEvent>, rows: usize, cols: usize) -> (r: bool)
    ensures
        r == events_fit(rows as int, cols as int, event_views(events@)),
{
    let ghost all = event_views(events@);
    let mut i: usize = 0;
    while i < events.len()
        invariant
            i <= events@.len(),
            all == event_views(events@),
            forall|j: int|
                0 <= j < i ==> event_fits(rows as int, cols as int, #[trigger] all[j]),
        decreases events@.len() - i,
    {
        if !events[i].fits(rows, cols) {
            proof {
                assert(!event_fits(rows as int, cols as int, all[i as int]));
            }
            return false;
        }
        i += 1;
    }
    true
}

/// What a parser reads from the first `n` of `bytes`, where `prior` are the
/// bytes that it got before.
pub open spec fn read_all(prior: Seq<u8>, bytes: Seq<u8>, n: int) -> Seq<EventView>
    decreases n,
{
    if n <= 0 {
        Seq::empty()
    } else {
        read_all(prior, bytes, n - 1) + parser::read_after(prior + bytes.take(n - 1), bytes[n - 1])
    }
}

/// A terminal: a screen that bytes change.
pub struct Terminal {
    pub grid: Grid,
    pub parser: ByteParser,
}

impl Terminal {
    /// The bytes that the terminal got since it was made.
    pub open spec fn got(&self) -> Seq<u8> {
        parser::bytes_fed(self.parser)
    }

    /// A terminal with an empty screen.
    pub fn new(rows: usize, cols: usize) -> (r: Self)
        ensures
            r.grid@ == empty_grid(rows as int, cols as int),
            r.grid@.wf(),
            r.got() == Seq::<u8>::empty(),
    {
        Terminal { grid: Grid::new(rows, cols), parser: ByteParser::new() }
    }

    /// Changes the size of the screen.
    pub fn resize(&mut self, rows: usize, cols: usize)
        requires
            old(self).grid@.screen.len() == old(self).grid@.rows,
        ensures
            final(self).grid@ == resized(old(self).grid@, rows as int, cols as int),
            final(self).grid@.wf(),
            final(self).got() == old(self).got(),
    {
        self.grid.resize(rows, cols);
    }

    /// Acts on bytes, and says whether the screen could: where it lacks the
    /// places that one of them needs, it stays as it is.
    pub fn advance(&mut self, bytes: &[u8]) -> (shown: bool)
        requires
            old(self).grid@.wf(),
        ensures
            ({
                let g = old(self).grid@;
                let events = read_all(old(self).got(), bytes@, bytes@.len() as int);
                &&& shown == events_fit(g.rows, g.cols, events)
                &&& shown ==> final(self).grid@ == after_all(g, events)
                &&& !shown ==> final(self).grid@ == g
            }),
            final(self).grid@.wf(),
            final(self).got() == old(self).got() + bytes@,
    {
        let ghost prior = self.got();
        let ghost g = self.grid@;
        let mut events: Vec<TermEvent> = Vec::new();
        let mut i: usize = 0;
        proof {
            assert(event_views(events@) =~= Seq::empty());
            assert(prior + bytes@.take(0) =~= prior);
        }
        while i < bytes.len()
            invariant
                i <= bytes@.len(),
                self.grid@ == g,
                self.got() == prior + bytes@.take(i as int),
                event_views(events@) == read_all(prior, bytes@, i as int),
            decreases bytes@.len() - i,
        {
            let mut read = self.parser.feed(bytes[i]);
            let ghost before = event_views(events@);
            let ghost more = event_views(read@);
            events.append(&mut read);
            proof {
                assert(event_views(events@) =~= before + more);
                assert((prior + bytes@.take(i as int)).push(bytes@[i as int]) =~= prior
                    + bytes@.take(i as int + 1));
            }
            i += 1;
        }
        proof {
            assert(bytes@.take(bytes@.len() as int) =~= bytes@);
        }
        let (rows, cols) = (self.grid.rows, self.grid.cols);
        if !all_fit(&events, rows, cols) {
            return false;
        }
        self.act(&events);
        true
    }

    /// Acts on events, one after the other.
    pub fn act(&mut self, events: &Vec<TermEvent>)
        requires
            old(self).grid@.wf(),
            events_fit(old(self).grid@.rows, old(self).grid@.cols, event_views(events@)),
        ensures
            final(self).grid@ == after_all(old(self).grid@, event_views(events@)),
            final(self).grid@.wf(),
            final(self).got() == old(self).got(),
    {
        let ghost g = self.grid@;
        let ghost all = event_views(events@);
        let ghost parser = self.parser;
        let mut i: usize = 0;
        proof {
            assert(all.take(0) =~= Seq::empty());
        }
        while i < events.len()
            invariant
                i <= events@.len(),
                all == event_views(events@),
                events_fit(g.rows, g.cols, all),
                self.parser == parser,
                self.grid@ == after_all(g, all.take(i as int)),
                self.grid@.wf(),
                self.grid@.rows == g.rows,
                self.grid@.cols == g.cols,
            decreases events@.len() - i,
        {
            proof {
                assert(event_fits(g.rows, g.cols, all[i as int]));
                assert(all.take(i as int + 1).drop_last() =~= all.take(i as int));
                assert(all.take(i as int + 1).last() == events@[i as int]@);
            }
            match &events[i] {
                TermEvent::Print(c) => {
                    self.grid.put_char(*c);
                },
                TermEvent::Execute(b) => {
                    self.grid.execute(*b);
                },
                TermEvent::Csi { params, action } => {
                    self.grid.csi_dispatch(params, *action);
                },
            }
            i += 1;
        }
        proof {
            assert(all.take(all.len() as int) =~= all);
        }
    }
}

proof fn lemma_after_both(g: GridView, a: Seq<EventView>, b: Seq<EventView>)
    ensures
        after_all(g, a + b) == after_all(after_all(g, a), b),
    decreases b.len(),
{
    if b.len() == 0 {
        assert(a + b =~= a);
    } else {
        assert((a + b).drop_last() =~= a + b.drop_last());
        assert((a + b).last() == b.last());
        lemma_after_both(g, a, b.drop_last());
    }
}

proof fn lemma_read_both(prior: Seq<u8>, a: Seq<u8>, b: Seq<u8>, n: int)
    requires
        0 <= n <= b.len(),
    ensures
        read_all(prior, a + b, a.len() + n) == read_all(prior, a, a.len() as int) + read_all(
            prior + a,
            b,
            n,
        ),
    decreases n,
{
    if n == 0 {
        lemma_read_front(prior, a, b, a.len() as int);
        assert(read_all(prior, a, a.len() as int) + Seq::<EventView>::empty() =~= read_all(
            prior,
            a,
            a.len() as int,
        ));
    } else {
        lemma_read_both(prior, a, b, n - 1);
        let c = a + b;
        let at = a.len() + n - 1;
        assert(prior + c.take(at) =~= prior + a + b.take(n - 1));
        assert(c[at] == b[n - 1]);
        let x = read_all(prior, a, a.len() as int);
        let y = read_all(prior + a, b, n - 1);
        let z = parser::read_after(prior + a + b.take(n - 1), b[n - 1]);
        assert(x + y + z =~= x + (y + z));
    }
}

proof fn lemma_read_front(prior: Seq<u8>, a: Seq<u8>, b: Seq<u8>, n: int)
    requires
        0 <= n <= a.len(),
    ensures
        read_all(prior, a + b, n) == read_all(prior, a, n),
    decreases n,
{
    if n > 0 {
        lemma_read_front(prior, a, b, n - 1);
        assert((a + b).take(n - 1) =~= a.take(n - 1));
    }
}

/// It does not matter in which portions bytes come: two portions, one after the
/// other, do what both do at once.
pub proof fn law_portions_do_not_matter(g: GridView, prior: Seq<u8>, a: Seq<u8>, b: Seq<u8>)
    ensures
        ({
            let first = read_all(prior, a, a.len() as int);
            let second = read_all(prior + a, b, b.len() as int);
            let both = read_all(prior, a + b, (a + b).len() as int);
            &&& after_all(g, both) == after_all(after_all(g, first), second)
            &&& events_fit(g.rows, g.cols, both) == (events_fit(g.rows, g.cols, first)
                && events_fit(g.rows, g.cols, second))
        }),
{
    let first = read_all(prior, a, a.len() as int);
    let second = read_all(prior + a, b, b.len() as int);
    let both = first + second;
    lemma_read_both(prior, a, b, b.len() as int);
    lemma_after_both(g, first, second);
    assert(forall|i: int| 0 <= i < first.len() ==> #[trigger] first[i] == both[i]);
    assert(forall|i: int|
        0 <= i < second.len() ==> #[trigger] second[i] == both[first.len() + i]);
    if events_fit(g.rows, g.cols, both) {
        assert forall|i: int| 0 <= i < second.len() implies event_fits(
            g.rows,
            g.cols,
            #[trigger] second[i],
        ) by {
            assert(event_fits(g.rows, g.cols, both[first.len() + i]));
        }
    }
    if events_fit(g.rows, g.cols, first) && events_fit(g.rows, g.cols, second) {
        assert forall|i: int| 0 <= i < both.len() implies event_fits(
            g.rows,
            g.cols,
            #[trigger] both[i],
        ) by {
            if i < first.len() {
                assert(event_fits(g.rows, g.cols, first[i]));
            } else {
                assert(event_fits(g.rows, g.cols, second[i - first.len()]));
            }
        }
    }
}

/// An event keeps the size of the screen, and every line that scrolled off.
pub proof fn law_events_keep_the_size(g: GridView, e: EventView)
    requires
        g.wf(),
        event_fits(g.rows, g.cols, e),
    ensures
        after(g, e).rows == g.rows,
        after(g, e).cols == g.cols,
        after(g, e).screen.len() == g.screen.len(),
        after(g, e).scrollback.len() >= g.scrollback.len(),
        after(g, e).scrollback.take(g.scrollback.len() as int) == g.scrollback,
{
    assert(after(g, e).scrollback.take(g.scrollback.len() as int) =~= g.scrollback);
}

/// A sequence never scrolls: the lines that scrolled off stay as they are.
pub proof fn law_sequences_do_not_scroll(g: GridView, params: Seq<Seq<u16>>, action: char)
    ensures
        sequenced(g, params, action).scrollback == g.scrollback,
{
}

/// Shrinking a screen and enlarging it again gives back what was kept: every
/// place within the smaller size.
pub proof fn law_resize_back_keeps_what_fits(
    g: GridView,
    rows: int,
    cols: int,
    i: int,
    j: int,
)
    requires
        g.wf(),
        0 <= i < rows <= g.rows,
        0 <= j < cols <= g.cols,
    ensures
        resized(resized(g, rows, cols), g.rows, g.cols).screen[i][j] == g.screen[i][j],
{
}

} // verus!
