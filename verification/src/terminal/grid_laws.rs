//! What events do to a screen.

use vstd::prelude::*;
use crate::terminal::grid;
use crate::terminal::grid::{Cell, CellStyle, Color, EventView, GridView};

verus! {

/// The event of a style sequence.
pub open spec fn styling(params: Seq<Seq<u16>>) -> EventView {
    EventView::Csi { params, action: 'm' }
}

/// The event of a sequence with one parameter.
pub open spec fn with_one(p: u16, action: char) -> EventView {
    EventView::Csi { params: seq![seq![p]], action }
}

/// Whether two screens differ in nothing but their style.
pub open spec fn same_but_style(a: GridView, b: GridView) -> bool {
    a == (GridView { style: a.style, ..b })
}

/// Whether two screens differ in nothing but what they show.
pub open spec fn same_but_screen(a: GridView, b: GridView) -> bool {
    a == (GridView { screen: a.screen, ..b })
}

/// Whether two screens differ in nothing but where the cursor is.
pub open spec fn same_but_cursor(a: GridView, b: GridView) -> bool {
    a == (GridView { cursor_row: a.cursor_row, cursor_col: a.cursor_col, ..b })
}

/// Whether a place is empty: a blank, in no color.
pub open spec fn is_blank(c: Cell) -> bool {
    c.ch == ' ' && c.style.fg == Color::Default && c.style.bg == Color::Default && !c.style.bold
}

/// What a style code does. The code 39 gives back the default foreground,
/// whatever it was, and 49 the default background; 30 to 37 and 90 to 97 set the
/// foreground, 40 to 47 and 100 to 107 the background, to one of sixteen colors;
/// 1 is bold and 22 is not; 0 takes everything back. What a code does not name
/// stays, and a code of no meaning does nothing.
pub proof fn law_style_codes(g: GridView, code: u16)
    ensures
        ({
            let r = grid::after(g, styling(seq![seq![code]]));
            let (s, t) = (g.style, r.style);
            let fg_only = t.bg == s.bg && t.bold == s.bold;
            let bg_only = t.fg == s.fg && t.bold == s.bold;
            let bold_only = t.fg == s.fg && t.bg == s.bg;
            &&& same_but_style(r, g)
            &&& code == 0 ==> t.fg == Color::Default && t.bg == Color::Default && !t.bold
            &&& code == 1 ==> t.bold && bold_only
            &&& code == 22 ==> !t.bold && bold_only
            &&& code == 39 ==> t.fg == Color::Default && fg_only
            &&& code == 49 ==> t.bg == Color::Default && bg_only
            &&& 30 <= code <= 37 ==> fg_only && t.fg == Color::Indexed((code - 30) as u8)
            &&& 40 <= code <= 47 ==> bg_only && t.bg == Color::Indexed((code - 40) as u8)
            &&& 90 <= code <= 97 ==> fg_only && t.fg == Color::Indexed((code - 90 + 8) as u8)
            &&& 100 <= code <= 107 ==> bg_only && t.bg == Color::Indexed((code - 100 + 8) as u8)
            &&& !(code == 0 || code == 1 || code == 22 || 30 <= code <= 37 || code == 39 || 40
                <= code <= 47 || code == 49 || 90 <= code <= 97 || 100 <= code <= 107) ==> t == s
        }),
{
    reveal_with_fuel(grid::restyled, 3);
    let params = seq![seq![code]];
    assert(params[0] == seq![code]);
    assert(params[0].len() == 1 && params[0][0] == code);
}

/// A sequence without parameters does nothing to the style; a parameter without
/// a value counts as zero, and takes everything back.
pub proof fn law_no_style_code(g: GridView)
    ensures
        grid::after(g, styling(Seq::empty())).style == g.style,
        grid::after(g, styling(seq![Seq::<u16>::empty()])).style == (CellStyle {
            fg: Color::Default,
            bg: Color::Default,
            bold: false,
        }),
{
    reveal_with_fuel(grid::restyled, 3);
    let none = Seq::<u16>::empty();
    assert(seq![none][0] == none);
}

proof fn lemma_restyled_behind(
    s: CellStyle,
    front: Seq<Seq<u16>>,
    rest: Seq<Seq<u16>>,
    i: int,
)
    requires
        0 <= i <= rest.len(),
    ensures
        grid::restyled(s, front + rest, front.len() + i) == grid::restyled(s, rest, i),
    decreases rest.len() - i,
{
    let all = front + rest;
    let at = front.len() + i;
    if i < rest.len() {
        assert(all[at] == rest[i]);
        let code = grid::param(rest, i, 0);
        assert(grid::param(all, at, 0) == code);
        if code == 38 || code == 48 {
            lemma_named_behind(front, rest, i + 1);
            let (color, next) = grid::named_color(rest, i + 1);
            let changed = match color {
                None => s,
                Some(c) => if code == 38 {
                    CellStyle { fg: c, ..s }
                } else {
                    CellStyle { bg: c, ..s }
                },
            };
            assert(i < next <= rest.len());
            lemma_restyled_behind(changed, front, rest, next);
        } else {
            lemma_restyled_behind(grid::coded(s, code), front, rest, i + 1);
        }
    }
}

proof fn lemma_named_behind(front: Seq<Seq<u16>>, rest: Seq<Seq<u16>>, i: int)
    requires
        0 <= i <= rest.len(),
    ensures
        grid::named_color(front + rest, front.len() + i) == (
            grid::named_color(rest, i).0,
            front.len() + grid::named_color(rest, i).1,
        ),
        i <= grid::named_color(rest, i).1 <= rest.len(),
{
    let all = front + rest;
    let n = front.len() as int;
    assert(i < rest.len() ==> all[n + i] == rest[i]);
    assert(i + 1 < rest.len() ==> all[n + i + 1] == rest[i + 1]);
    assert(i + 2 < rest.len() ==> all[n + i + 2] == rest[i + 2]);
    assert(i + 3 < rest.len() ==> all[n + i + 3] == rest[i + 3]);
}

/// Style codes in one sequence act one after the other, as in sequences of their
/// own.
pub proof fn law_style_codes_act_in_turn(g: GridView, code: u16, rest: Seq<Seq<u16>>)
    requires
        code != 38,
        code != 48,
    ensures
        grid::after(g, styling(seq![seq![code]] + rest)) == grid::after(
            grid::after(g, styling(seq![seq![code]])),
            styling(rest),
        ),
{
    let one = seq![seq![code]];
    let all = one + rest;
    assert(one[0] == seq![code] && all[0] == one[0]);
    reveal_with_fuel(grid::restyled, 2);
    lemma_restyled_behind(grid::coded(g.style, code), one, rest, 0);
}

/// A color by its index: 38, 5 and the index set the foreground, 48, 5 and the
/// index the background, and what follows acts as in a sequence of its own.
pub proof fn law_color_by_index(g: GridView, ground: u16, index: u8, rest: Seq<Seq<u16>>)
    requires
        ground == 38 || ground == 48,
    ensures
        ({
            let named = seq![seq![ground], seq![5u16], seq![index as u16]];
            let r = grid::after(g, styling(named));
            &&& same_but_style(r, g)
            &&& r.style == if ground == 38 {
                CellStyle { fg: Color::Indexed(index), ..g.style }
            } else {
                CellStyle { bg: Color::Indexed(index), ..g.style }
            }
            &&& grid::after(g, styling(named + rest)) == grid::after(r, styling(rest))
        }),
{
    let named = seq![seq![ground], seq![5u16], seq![index as u16]];
    let all = named + rest;
    lemma_first_three(named, rest, ground, 5, index as u16);
    lemma_small_color(index);
    reveal_with_fuel(grid::restyled, 2);
    let s = if ground == 38 {
        CellStyle { fg: Color::Indexed(index), ..g.style }
    } else {
        CellStyle { bg: Color::Indexed(index), ..g.style }
    };
    lemma_restyled_behind(s, named, rest, 0);
    assert(grid::restyled(g.style, named, 0) == s);
    assert(grid::restyled(g.style, all, 0) == grid::restyled(s, all, 3));
}

proof fn lemma_first_three(
    named: Seq<Seq<u16>>,
    rest: Seq<Seq<u16>>,
    a: u16,
    b: u16,
    c: u16,
)
    requires
        named == seq![seq![a], seq![b], seq![c]],
    ensures
        named.len() == 3,
        named[0] == seq![a] && named[1] == seq![b] && named[2] == seq![c],
        (named + rest)[0] == seq![a] && (named + rest)[1] == seq![b] && (named + rest)[2]
            == seq![c],
        seq![a][0] == a && seq![b][0] == b && seq![c][0] == c,
        grid::param(named, 0, 0) == a,
        grid::param(named + rest, 0, 0) == a,
{
}

proof fn lemma_small_color(v: u8)
    ensures
        grid::color_value(v as u16) == v,
{
}

/// A color by its parts: 38, 2 and three values set the foreground, 48, 2 and
/// three values the background, and what follows acts as in a sequence of its
/// own.
pub proof fn law_color_by_parts(
    g: GridView,
    ground: u16,
    red: u8,
    green: u8,
    blue: u8,
    rest: Seq<Seq<u16>>,
)
    requires
        ground == 38 || ground == 48,
    ensures
        ({
            let named = seq![
                seq![ground],
                seq![2u16],
                seq![red as u16],
                seq![green as u16],
                seq![blue as u16],
            ];
            let r = grid::after(g, styling(named));
            &&& same_but_style(r, g)
            &&& r.style == if ground == 38 {
                CellStyle { fg: Color::Rgb(red, green, blue), ..g.style }
            } else {
                CellStyle { bg: Color::Rgb(red, green, blue), ..g.style }
            }
            &&& grid::after(g, styling(named + rest)) == grid::after(r, styling(rest))
        }),
{
    let named = seq![
        seq![ground],
        seq![2u16],
        seq![red as u16],
        seq![green as u16],
        seq![blue as u16],
    ];
    let all = named + rest;
    assert(named[0] == seq![ground] && named[1] == seq![2u16] && named[2] == seq![red as u16]
        && named[3] == seq![green as u16] && named[4] == seq![blue as u16]);
    assert(all[0] == named[0] && all[1] == named[1] && all[2] == named[2] && all[3] == named[3]
        && all[4] == named[4]);
    assert(seq![ground][0] == ground && seq![2u16][0] == 2u16);
    lemma_small_color(red);
    lemma_small_color(green);
    lemma_small_color(blue);
    assert(grid::param(named, 2, 0) == red && grid::param(named, 3, 0) == green && grid::param(
        named,
        4,
        0,
    ) == blue);
    assert(grid::param(all, 2, 0) == red && grid::param(all, 3, 0) == green && grid::param(
        all,
        4,
        0,
    ) == blue);
    reveal_with_fuel(grid::restyled, 2);
    let s = if ground == 38 {
        CellStyle { fg: Color::Rgb(red, green, blue), ..g.style }
    } else {
        CellStyle { bg: Color::Rgb(red, green, blue), ..g.style }
    };
    lemma_restyled_behind(s, named, rest, 0);
    assert(grid::restyled(g.style, named, 0) == s);
    assert(grid::restyled(g.style, all, 0) == grid::restyled(s, all, 5));
}

/// A color that is not named whole changes nothing.
pub proof fn law_color_without_value(g: GridView, ground: u16)
    requires
        ground == 38 || ground == 48,
    ensures
        grid::after(g, styling(seq![seq![ground]])).style == g.style,
        grid::after(g, styling(seq![seq![ground], seq![5u16]])).style == g.style,
{
    reveal_with_fuel(grid::restyled, 3);
    let one = seq![seq![ground]];
    let two = seq![seq![ground], seq![5u16]];
    assert(one[0] == seq![ground] && two[0] == seq![ground] && two[1] == seq![5u16]);
    assert(seq![ground][0] == ground && seq![5u16][0] == 5u16);
}

/// Setting a color and then its default gives the default, and the rest of the
/// style as it was.
pub proof fn law_default_color_comes_back(g: GridView, index: u8)
    ensures
        ({
            let fg = seq![seq![38u16], seq![5u16], seq![index as u16]];
            let bg = seq![seq![48u16], seq![5u16], seq![index as u16]];
            let a = grid::after(grid::after(g, styling(fg)), styling(seq![seq![39u16]]));
            let b = grid::after(grid::after(g, styling(bg)), styling(seq![seq![49u16]]));
            &&& a.style == (CellStyle { fg: Color::Default, ..g.style })
            &&& b.style == (CellStyle { bg: Color::Default, ..g.style })
        }),
{
    let fg = seq![seq![38u16], seq![5u16], seq![index as u16]];
    let bg = seq![seq![48u16], seq![5u16], seq![index as u16]];
    law_color_by_index(g, 38, index, Seq::empty());
    law_color_by_index(g, 48, index, Seq::empty());
    law_style_codes(grid::after(g, styling(fg)), 39);
    law_style_codes(grid::after(g, styling(bg)), 49);
}

/// A character is shown at the cursor in the style of the terminal, and the
/// cursor goes on one place. Every other place stays, and nothing scrolls.
pub proof fn law_character_is_shown(g: GridView, c: char, row: int, col: int)
    requires
        g.wf(),
        g.rows > 0,
        g.cursor_col < g.cols,
        0 <= row < g.rows,
        0 <= col < g.cols,
    ensures
        ({
            let r = grid::after(g, EventView::Print(c));
            &&& r.screen[row][col] == if row == g.cursor_row && col == g.cursor_col {
                Cell { ch: c, style: g.style }
            } else {
                g.screen[row][col]
            }
            &&& r.cursor_row == g.cursor_row
            &&& r.cursor_col == g.cursor_col + 1
            &&& r.style == g.style
            &&& r.scrollback == g.scrollback
            &&& r.rows == g.rows && r.cols == g.cols
        }),
{
}

/// Behind the end of a line, a character is shown as after a carriage return and
/// a line feed.
pub proof fn law_line_is_wrapped(g: GridView, c: char)
    requires
        g.wf(),
        g.rows > 0,
        g.cols > 0,
        g.cursor_col == g.cols,
    ensures
        grid::after(g, EventView::Print(c)) == grid::after(
            grid::after(grid::after(g, EventView::Execute(13)), EventView::Execute(10)),
            EventView::Print(c),
        ),
{
}

/// A line feed moves the cursor one line down. At the bottom it stays; an empty
/// line comes in below, and what is on the screen moves up, its top line to
/// those that scrolled off: no line is lost and none changes.
pub proof fn law_line_feed(g: GridView)
    requires
        g.wf(),
        g.rows > 0,
    ensures
        ({
            let r = grid::after(g, EventView::Execute(10));
            let (before, after) = (g.scrollback + g.screen, r.scrollback + r.screen);
            &&& r.cursor_col == g.cursor_col
            &&& r.style == g.style
            &&& r.rows == g.rows && r.cols == g.cols
            &&& g.cursor_row + 1 < g.rows ==> {
                &&& r.cursor_row == g.cursor_row + 1
                &&& r.screen == g.screen
                &&& r.scrollback == g.scrollback
            }
            &&& g.cursor_row + 1 == g.rows ==> {
                &&& r.cursor_row == g.cursor_row
                &&& r.scrollback.len() == g.scrollback.len() + 1
                &&& after.len() == before.len() + 1
                &&& after.take(before.len() as int) == before
                &&& after.last().len() == g.cols
                &&& forall|j: int| 0 <= j < g.cols ==> is_blank(#[trigger] after.last()[j])
            }
        }),
{
    let r = grid::after(g, EventView::Execute(10));
    let (before, after) = (g.scrollback + g.screen, r.scrollback + r.screen);
    if g.cursor_row + 1 == g.rows {
        assert(after.take(before.len() as int) =~= before);
    }
}

/// What the other control characters do: a carriage return goes to the start of
/// the line, a backspace one place back, a tabulator to the next place whose
/// number eight divides or to the last of the line; others do nothing.
pub proof fn law_control_characters(g: GridView, byte: u8)
    requires
        g.wf(),
        byte != 10,
    ensures
        ({
            let r = grid::after(g, EventView::Execute(byte));
            &&& same_but_cursor(r, g)
            &&& r.cursor_row == g.cursor_row
            &&& byte == 13 ==> r.cursor_col == 0
            &&& byte == 8 ==> (g.cursor_col > 0 ==> r.cursor_col == g.cursor_col - 1) && (
            g.cursor_col == 0 ==> r.cursor_col == 0)
            &&& byte == 9 && g.cols > 0 ==> {
                &&& r.cursor_col < g.cols
                &&& r.cursor_col % 8 == 0 || r.cursor_col == g.cols - 1
                &&& r.cursor_col <= g.cursor_col + 8
                &&& r.cursor_col > g.cursor_col || r.cursor_col == g.cols - 1
            }
            &&& byte != 13 && byte != 8 && byte != 9 ==> r == g
        }),
{
}

/// How far a sequence moves: as far as its parameter says, one place at least.
pub open spec fn steps(p: u16) -> int {
    if p == 0 {
        1
    } else {
        p as int
    }
}

/// The sequences A, B, C and D move the cursor up, down, right and left, as far
/// as they say or to the edge of the screen.
pub proof fn law_cursor_moves(g: GridView, p: u16)
    requires
        g.wf(),
        g.rows > 0,
        g.cols > 0,
    ensures
        ({
            let n = steps(p);
            let (up, down) = (grid::after(g, with_one(p, 'A')), grid::after(g, with_one(p, 'B')));
            let (right, left) = (grid::after(g, with_one(p, 'C')), grid::after(g, with_one(p, 'D')));
            &&& same_but_cursor(up, g) && same_but_cursor(down, g)
            &&& same_but_cursor(right, g) && same_but_cursor(left, g)
            &&& up.cursor_col == g.cursor_col && down.cursor_col == g.cursor_col
            &&& right.cursor_row == g.cursor_row && left.cursor_row == g.cursor_row
            &&& g.cursor_row >= n ==> up.cursor_row == g.cursor_row - n
            &&& g.cursor_row < n ==> up.cursor_row == 0
            &&& g.cursor_row + n < g.rows ==> down.cursor_row == g.cursor_row + n
            &&& g.cursor_row + n >= g.rows ==> down.cursor_row == g.rows - 1
            &&& g.cursor_col + n < g.cols ==> right.cursor_col == g.cursor_col + n
            &&& g.cursor_col + n >= g.cols ==> right.cursor_col == g.cols - 1
            &&& g.cursor_col >= n ==> left.cursor_col == g.cursor_col - n
            &&& g.cursor_col < n ==> left.cursor_col == 0
        }),
{
    let params = seq![seq![p]];
    assert(params[0] == seq![p] && seq![p][0] == p);
}

/// Without a parameter a sequence moves the cursor by one place.
pub proof fn law_cursor_moves_once(g: GridView, action: char)
    requires
        action == 'A' || action == 'B' || action == 'C' || action == 'D' || action == 'P',
    ensures
        grid::after(g, EventView::Csi { params: Seq::empty(), action }) == grid::after(
            g,
            with_one(1, action),
        ),
{
    let params = seq![seq![1u16]];
    assert(params[0] == seq![1u16] && seq![1u16][0] == 1u16);
}

/// The sequences H and f put the cursor at the line and the column that they
/// name, counted from one, or at the last ones of the screen; at the first ones
/// where they name none.
pub proof fn law_cursor_is_put(g: GridView, row: u16, col: u16, action: char)
    requires
        g.wf(),
        g.rows > 0,
        g.cols > 0,
        action == 'H' || action == 'f',
    ensures
        ({
            let r = grid::after(
                g,
                EventView::Csi { params: seq![seq![row], seq![col]], action },
            );
            let home = grid::after(g, EventView::Csi { params: Seq::empty(), action });
            let line = grid::after(g, with_one(row, action));
            &&& same_but_cursor(r, g) && same_but_cursor(home, g) && same_but_cursor(line, g)
            &&& steps(row) <= g.rows ==> r.cursor_row == steps(row) - 1
            &&& steps(row) > g.rows ==> r.cursor_row == g.rows - 1
            &&& steps(col) <= g.cols ==> r.cursor_col == steps(col) - 1
            &&& steps(col) > g.cols ==> r.cursor_col == g.cols - 1
            &&& home.cursor_row == 0 && home.cursor_col == 0
            &&& line.cursor_row == r.cursor_row && line.cursor_col == 0
        }),
{
    let params = seq![seq![row], seq![col]];
    assert(params[0] == seq![row] && seq![row][0] == row);
    assert(params[1] == seq![col] && seq![col][0] == col);
    let one = seq![seq![row]];
    assert(one[0] == seq![row]);
}

/// The sequence J empties the screen: 0 from the cursor on, 1 up to the cursor, 2
/// and 3 all of it, the place of the cursor included. Every other place stays,
/// and so does all but the screen.
pub proof fn law_screen_is_emptied(g: GridView, mode: u16, row: int, col: int)
    requires
        g.wf(),
        g.rows > 0,
        g.cols > 0,
        0 <= row < g.rows,
        0 <= col < g.cols,
    ensures
        ({
            let r = grid::after(g, with_one(mode, 'J'));
            let behind = row > g.cursor_row || (row == g.cursor_row && col >= g.cursor_col);
            let before = row < g.cursor_row || (row == g.cursor_row && col <= g.cursor_col);
            let emptied = (mode == 0 && behind) || (mode == 1 && before) || mode == 2 || mode == 3;
            &&& same_but_screen(r, g)
            &&& r.screen.len() == g.rows && r.screen[row].len() == g.cols
            &&& emptied ==> is_blank(r.screen[row][col])
            &&& !emptied ==> r.screen[row][col] == g.screen[row][col]
        }),
{
    let params = seq![seq![mode]];
    assert(params[0] == seq![mode] && seq![mode][0] == mode);
}

/// The sequence K does the same within the line of the cursor.
pub proof fn law_line_is_emptied(g: GridView, mode: u16, row: int, col: int)
    requires
        g.wf(),
        g.rows > 0,
        g.cols > 0,
        0 <= row < g.rows,
        0 <= col < g.cols,
    ensures
        ({
            let r = grid::after(g, with_one(mode, 'K'));
            let emptied = row == g.cursor_row && ((mode == 0 && col >= g.cursor_col) || (mode == 1
                && col <= g.cursor_col) || mode == 2);
            &&& same_but_screen(r, g)
            &&& r.screen.len() == g.rows && r.screen[row].len() == g.cols
            &&& emptied ==> is_blank(r.screen[row][col])
            &&& !emptied ==> r.screen[row][col] == g.screen[row][col]
        }),
{
    let params = seq![seq![mode]];
    assert(params[0] == seq![mode] && seq![mode][0] == mode);
}

/// Without a parameter the sequences J and K empty what is behind the cursor.
pub proof fn law_emptied_without_parameter(g: GridView, action: char)
    requires
        action == 'J' || action == 'K',
    ensures
        grid::after(g, EventView::Csi { params: Seq::empty(), action }) == grid::after(
            g,
            with_one(0, action),
        ),
{
    let params = seq![seq![0u16]];
    assert(params[0] == seq![0u16] && seq![0u16][0] == 0u16);
}

/// The sequence P takes places out at the cursor: what is behind them in the
/// line moves up, empty places come in at its end, and all else stays.
pub proof fn law_places_are_taken_out(g: GridView, p: u16, row: int, col: int)
    requires
        g.wf(),
        0 <= row < g.rows,
        0 <= col < g.cols,
    ensures
        ({
            let n = steps(p);
            let r = grid::after(g, with_one(p, 'P'));
            let moved = row == g.cursor_row && col >= g.cursor_col;
            &&& same_but_screen(r, g)
            &&& r.screen.len() == g.rows && r.screen[row].len() == g.cols
            &&& !moved ==> r.screen[row][col] == g.screen[row][col]
            &&& moved && col + n < g.cols ==> r.screen[row][col] == g.screen[row][col + n]
            &&& moved && col + n >= g.cols ==> is_blank(r.screen[row][col])
        }),
{
    let params = seq![seq![p]];
    assert(params[0] == seq![p] && seq![p][0] == p);
}

/// A sequence that is not known does nothing.
pub proof fn law_unknown_sequences(g: GridView, params: Seq<Seq<u16>>, action: char)
    requires
        !seq!['A', 'B', 'C', 'D', 'H', 'f', 'J', 'K', 'P', 'm'].contains(action),
    ensures
        grid::after(g, EventView::Csi { params, action }) == g,
{
    let known = seq!['A', 'B', 'C', 'D', 'H', 'f', 'J', 'K', 'P', 'm'];
    assert(known[0] == 'A' && known[1] == 'B' && known[2] == 'C' && known[3] == 'D' && known[4]
        == 'H' && known[5] == 'f' && known[6] == 'J' && known[7] == 'K' && known[8] == 'P'
        && known[9] == 'm');
}

/// Events act one after the other.
pub proof fn law_events_act_in_turn(g: GridView, a: Seq<EventView>, e: EventView, b: Seq<EventView>)
    ensures
        grid::after_all(g, Seq::empty()) == g,
        grid::after_all(g, seq![e]) == grid::after(g, e),
        grid::after_all(g, a + b) == grid::after_all(grid::after_all(g, a), b),
    decreases b.len(),
{
    reveal_with_fuel(grid::after_all, 2);
    assert(seq![e].drop_last() =~= Seq::empty());
    assert(seq![e].last() == e);
    if b.len() == 0 {
        assert(a + b =~= a);
    } else {
        assert((a + b).drop_last() =~= a + b.drop_last());
        assert((a + b).last() == b.last());
        law_events_act_in_turn(g, a, e, b.drop_last());
    }
}

/// A screen with a place at least can act on every event.
pub proof fn law_every_event_is_shown(rows: int, cols: int, events: Seq<EventView>)
    requires
        rows > 0,
        cols > 0,
    ensures
        grid::events_fit(rows, cols, events),
{
}

/// A new screen is empty: its cursor stands at the first place, nothing has
/// scrolled off it, and its style is the default one.
pub proof fn law_new_screen(rows: int, cols: int, row: int, col: int)
    requires
        0 <= row < rows,
        0 <= col < cols,
    ensures
        ({
            let g = grid::empty_grid(rows, cols);
            &&& g.rows == rows && g.cols == cols
            &&& g.screen.len() == rows && g.screen[row].len() == cols
            &&& is_blank(g.screen[row][col])
            &&& g.scrollback.len() == 0
            &&& g.cursor_row == 0 && g.cursor_col == 0
            &&& g.style.fg == Color::Default && g.style.bg == Color::Default && !g.style.bold
        }),
{
}

/// A screen of another size shows what it showed, in every place that it had;
/// its other places are empty. The cursor stays where it is, or goes to the edge
/// of the screen. What scrolled off and the style stay.
pub proof fn law_resized_screen(g: GridView, rows: int, cols: int, row: int, col: int)
    requires
        g.wf(),
        0 <= row < rows,
        0 <= col < cols,
    ensures
        ({
            let r = grid::resized(g, rows, cols);
            &&& r.rows == rows && r.cols == cols
            &&& r.screen.len() == rows && r.screen[row].len() == cols
            &&& row < g.rows && col < g.cols ==> r.screen[row][col] == g.screen[row][col]
            &&& !(row < g.rows && col < g.cols) ==> is_blank(r.screen[row][col])
            &&& r.scrollback == g.scrollback && r.style == g.style
            &&& g.cursor_row < rows ==> r.cursor_row == g.cursor_row
            &&& g.cursor_row >= rows ==> r.cursor_row == rows - 1
            &&& g.cursor_col < cols ==> r.cursor_col == g.cursor_col
            &&& g.cursor_col >= cols ==> r.cursor_col == cols - 1
        }),
{
}

} // verus!
