//! What a screen looks like, and what keys send.

use vstd::prelude::*;
use vstd::string::*;
use vstd::utf8::encode_utf8;
use crate::terminal::grid::{Cell, CellStyle, Color, Row};
use crate::text;

verus! {

/// The number of lines of a new screen.
pub const DEFAULT_ROWS: usize = 40;

/// The width of a new screen.
pub const DEFAULT_COLS: usize = 120;

/// The color of a text that has none.
pub const DEFAULT_FG: u32 = 0xcdd6f4;

/// A part of a line.
#[derive(PartialEq, Eq, Debug)]
pub enum Run {
    /// Characters of one style.
    Text { style: CellStyle, text: String },
    /// The place of the cursor.
    Cursor { cell: Cell },
}

/// The model of [`Run`].
#[verifier::ext_equal]
pub enum RunView {
    Text { style: CellStyle, text: Seq<char> },
    Cursor { cell: Cell },
}

impl View for Run {
    type V = RunView;

    open spec fn view(&self) -> RunView {
        match *self {
            Run::Text { style, text } => RunView::Text { style, text: text@ },
            Run::Cursor { cell } => RunView::Cursor { cell },
        }
    }
}

/// The models of parts.
pub open spec fn run_views(v: Seq<Run>) -> Seq<RunView> {
    Seq::new(v.len(), |i: int| v[i]@)
}

/// The parts of a line: the place of the cursor by itself, and before and
/// behind it characters of one style together.
pub open spec fn runs(row: Seq<Cell>, cursor: Option<int>) -> Seq<RunView>
    decreases row.len(),
{
    if row.len() == 0 {
        Seq::empty()
    } else {
        let front = runs(row.drop_last(), cursor);
        let cell = row.last();
        if cursor == Some(row.len() - 1) {
            front.push(RunView::Cursor { cell })
        } else if front.len() > 0 && front.last() is Text && front.last()->style == cell.style {
            front.drop_last().push(
                RunView::Text { style: cell.style, text: front.last()->text.push(cell.ch) },
            )
        } else {
            front.push(RunView::Text { style: cell.style, text: seq![cell.ch] })
        }
    }
}

/// The parts of a line; `cursor` is where the cursor is, if it is on the line.
pub fn row_runs(row: &Row, cursor: Option<usize>) -> (r: Vec<Run>)
    ensures
        run_views(r@) == runs(
            row@,
            match cursor {
                Some(c) => Some(c as int),
                None => None,
            },
        ),
{
    let ghost cur = match cursor {
        Some(c) => Some(c as int),
        None => None,
    };
    let mut out: Vec<Run> = Vec::new();
    let mut i: usize = 0;
    proof {
        assert(row@.take(0) =~= Seq::empty());
        assert(run_views(out@) =~= Seq::empty());
    }
    while i < row.len()
        invariant
            i <= row@.len(),
            cur == (match cursor {
                Some(c) => Some(c as int),
                None => None,
            }),
            run_views(out@) == runs(row@.take(i as int), cur),
        decreases row@.len() - i,
    {
        let cell = row[i];
        let ghost before = run_views(out@);
        proof {
            assert(row@.take(i as int + 1).drop_last() =~= row@.take(i as int));
            assert(row@.take(i as int + 1).last() == cell);
        }
        let at_cursor = match cursor {
            Some(c) => c == i,
            None => false,
        };
        if at_cursor {
            out.push(Run::Cursor { cell });
            proof {
                assert(run_views(out@) =~= before.push(RunView::Cursor { cell }));
            }
        } else {
            let joins = match out.last() {
                Some(run) => match run {
                    Run::Text { style, text: _ } => *style == cell.style,
                    Run::Cursor { .. } => false,
                },
                None => false,
            };
            let mut t = String::new();
            if joins {
                let ghost all = out@;
                match out.pop() {
                    Some(run) => match run {
                        Run::Text { style: _, text: s } => {
                            t = s;
                        },
                        Run::Cursor { .. } => {},
                    },
                    None => {},
                }
                proof {
                    assert(run_views(out@) =~= before.drop_last());
                    assert(before.last() == all.last()@);
                }
            }
            t.push(cell.ch);
            let ghost tv = t@;
            out.push(Run::Text { style: cell.style, text: t });
            proof {
                if joins {
                    assert(run_views(out@) =~= before.drop_last().push(
                        RunView::Text { style: cell.style, text: before.last()->text.push(cell.ch) },
                    ));
                } else {
                    assert(tv =~= seq![cell.ch]);
                    assert(run_views(out@) =~= before.push(
                        RunView::Text { style: cell.style, text: seq![cell.ch] },
                    ));
                }
            }
        }
        i += 1;
    }
    proof {
        assert(row@.take(row@.len() as int) =~= row@);
    }
    out
}

/// The character shown under the cursor.
pub fn cursor_char(cell: &Cell) -> (r: char)
    ensures
        r == (if cell.ch == '\0' {
            ' '
        } else {
            cell.ch
        }),
{
    if cell.ch == ' ' || cell.ch == '\0' {
        ' '
    } else {
        cell.ch
    }
}

/// A color by its three parts.
pub open spec fn rgb(r: int, g: int, b: int) -> int {
    r * 65536 + g * 256 + b
}

/// A level of the color cube.
pub open spec fn level(c: int) -> int {
    if c == 0 {
        0
    } else {
        55 + c * 40
    }
}

/// The sixteen basic colors.
pub open spec fn basic(i: int) -> int {
    if i == 0 {
        0x45475a
    } else if i == 1 {
        0xf38ba8
    } else if i == 2 {
        0xa6e3a1
    } else if i == 3 {
        0xf9e2af
    } else if i == 4 {
        0x89b4fa
    } else if i == 5 {
        0xcba6f7
    } else if i == 6 {
        0x94e2d5
    } else if i == 7 {
        0xbac2de
    } else if i == 8 {
        0x585b70
    } else if i == 9 {
        0xf37799
    } else if i == 10 {
        0x94d98d
    } else if i == 11 {
        0xf5cf78
    } else if i == 12 {
        0x74a7f5
    } else if i == 13 {
        0xc094f5
    } else if i == 14 {
        0x7ed7c9
    } else {
        0xcdd6f4
    }
}

/// The color at an index: the sixteen basic ones, a cube of six levels, and a
/// ramp of grays.
pub open spec fn palette(idx: int) -> int {
    if idx < 16 {
        basic(idx)
    } else if idx < 232 {
        rgb(level((idx - 16) / 36), level(((idx - 16) % 36) / 6), level((idx - 16) % 6))
    } else {
        rgb(8 + (idx - 232) * 10, 8 + (idx - 232) * 10, 8 + (idx - 232) * 10)
    }
}

fn cube_level(c: u32) -> (r: u32)
    requires
        c < 6,
    ensures
        r == level(c as int),
        r <= 255,
{
    if c == 0 {
        0
    } else {
        55 + c * 40
    }
}

/// The color at an index.
pub fn palette_color(idx: u8) -> (r: u32)
    ensures
        r == palette(idx as int),
{
    let basic: [u32; 16] = [
        0x45475a,
        0xf38ba8,
        0xa6e3a1,
        0xf9e2af,
        0x89b4fa,
        0xcba6f7,
        0x94e2d5,
        0xbac2de,
        0x585b70,
        0xf37799,
        0x94d98d,
        0xf5cf78,
        0x74a7f5,
        0xc094f5,
        0x7ed7c9,
        0xcdd6f4,
    ];
    if idx < 16 {
        basic[idx as usize]
    } else if idx < 232 {
        let i: u32 = (idx - 16) as u32;
        let r = cube_level(i / 36);
        let g = cube_level((i % 36) / 6);
        let b = cube_level(i % 6);
        proof {
            assert((i as int % 36) % 6 == i as int % 6);
        }
        r * 65536 + g * 256 + b
    } else {
        let v: u32 = 8 + (idx - 232) as u32 * 10;
        v * 65536 + v * 256 + v
    }
}

/// A color as a number.
pub open spec fn color_number(c: Color, default: int) -> int {
    match c {
        Color::Default => default,
        Color::Indexed(i) => palette(i as int),
        Color::Rgb(r, g, b) => rgb(r as int, g as int, b as int),
    }
}

/// The color of a text in a style.
pub fn fg_color(style: CellStyle) -> (r: u32)
    ensures
        r == color_number(style.fg, DEFAULT_FG as int),
{
    match style.fg {
        Color::Default => DEFAULT_FG,
        Color::Indexed(i) => palette_color(i),
        Color::Rgb(r, g, b) => r as u32 * 65536 + g as u32 * 256 + b as u32,
    }
}

/// The color behind a text in a style, where it has an indexed one.
pub fn bg_color(style: CellStyle) -> (r: Option<u32>)
    ensures
        match style.bg {
            Color::Indexed(i) => r is Some && r->0 == palette(i as int),
            _ => r is None,
        },
{
    match style.bg {
        Color::Indexed(i) => Some(palette_color(i)),
        _ => None,
    }
}

/// A text with a carriage return before every line feed.
pub open spec fn with_returns(s: Seq<char>) -> Seq<char>
    decreases s.len(),
{
    if s.len() == 0 {
        Seq::empty()
    } else if s.last() == '\n' {
        with_returns(s.drop_last()).push('\r').push('\n')
    } else {
        with_returns(s.drop_last()).push(s.last())
    }
}

/// The bytes of a text for a terminal: a carriage return stands before every
/// line feed.
pub fn text_bytes(s: &str) -> (r: Vec<u8>)
    ensures
        r@ == encode_utf8(with_returns(s@)),
{
    let v = text::to_chars(s);
    let mut out = String::new();
    let mut i: usize = 0;
    proof {
        assert(s@.take(0) =~= Seq::empty());
    }
    while i < v.len()
        invariant
            i <= v@.len(),
            v@ == s@,
            out@ == with_returns(s@.take(i as int)),
        decreases v@.len() - i,
    {
        proof {
            assert(s@.take(i as int + 1).drop_last() =~= s@.take(i as int));
            assert(s@.take(i as int + 1).last() == v@[i as int]);
        }
        if v[i] == '\n' {
            out.push('\r');
        }
        out.push(v[i]);
        i += 1;
    }
    proof {
        assert(s@.take(s@.len() as int) =~= s@);
    }
    out.as_str().as_bytes_vec()
}

/// The byte of a letter with the control key: one for `a`, and so on.
pub open spec fn control_byte(c: char) -> Option<u8> {
    if 'a' <= c <= 'z' {
        Some((c as int - 96) as u8)
    } else if 'A' <= c <= 'Z' {
        Some((c as int - 64) as u8)
    } else if c == '[' {
        Some(0x1b)
    } else if c == '\\' {
        Some(0x1c)
    } else if c == ']' {
        Some(0x1d)
    } else if c == ' ' {
        Some(0)
    } else {
        None
    }
}

/// What a named key sends.
pub open spec fn named_key(key: Seq<char>) -> Option<Seq<char>> {
    if key == "enter"@ {
        Some("\r"@)
    } else if key == "tab"@ {
        Some("\t"@)
    } else if key == "backspace"@ {
        Some("\x7f"@)
    } else if key == "escape"@ {
        Some("\x1b"@)
    } else if key == "delete"@ {
        Some("\x1b[3~"@)
    } else if key == "up"@ {
        Some("\x1b[A"@)
    } else if key == "down"@ {
        Some("\x1b[B"@)
    } else if key == "right"@ {
        Some("\x1b[C"@)
    } else if key == "left"@ {
        Some("\x1b[D"@)
    } else if key == "home"@ {
        Some("\x1b[H"@)
    } else if key == "end"@ {
        Some("\x1b[F"@)
    } else if key == "pageup"@ {
        Some("\x1b[5~"@)
    } else if key == "pagedown"@ {
        Some("\x1b[6~"@)
    } else {
        None
    }
}

/// What a key sends: with the control key a control character, where there is
/// one; else what the key's name stands for, or the character that it types.
pub open spec fn key_sends(
    key: Seq<char>,
    control: bool,
    key_char: Option<Seq<char>>,
) -> Option<Seq<u8>> {
    if control && key.len() == 1 && control_byte(key[0]) is Some {
        Some(seq![control_byte(key[0])->0])
    } else {
        match named_key(key) {
            Some(s) => Some(encode_utf8(s)),
            None => match key_char {
                Some(t) => Some(encode_utf8(t)),
                None => None,
            },
        }
    }
}

fn control_key(c: char) -> (r: Option<u8>)
    ensures
        r == control_byte(c),
{
    if 'a' <= c && c <= 'z' {
        Some((c as u32 - 96) as u8)
    } else if 'A' <= c && c <= 'Z' {
        Some((c as u32 - 64) as u8)
    } else if c == '[' {
        Some(0x1b)
    } else if c == '\\' {
        Some(0x1c)
    } else if c == ']' {
        Some(0x1d)
    } else if c == ' ' {
        Some(0)
    } else {
        None
    }
}

fn key_text(key: &str) -> (r: Option<&'static str>)
    ensures
        text::opt_str_view(r) == named_key(key@),
{
    if text::str_eq(key, "enter") {
        Some("\r")
    } else if text::str_eq(key, "tab") {
        Some("\t")
    } else if text::str_eq(key, "backspace") {
        Some("\x7f")
    } else if text::str_eq(key, "escape") {
        Some("\x1b")
    } else if text::str_eq(key, "delete") {
        Some("\x1b[3~")
    } else if text::str_eq(key, "up") {
        Some("\x1b[A")
    } else if text::str_eq(key, "down") {
        Some("\x1b[B")
    } else if text::str_eq(key, "right") {
        Some("\x1b[C")
    } else if text::str_eq(key, "left") {
        Some("\x1b[D")
    } else if text::str_eq(key, "home") {
        Some("\x1b[H")
    } else if text::str_eq(key, "end") {
        Some("\x1b[F")
    } else if text::str_eq(key, "pageup") {
        Some("\x1b[5~")
    } else if text::str_eq(key, "pagedown") {
        Some("\x1b[6~")
    } else {
        None
    }
}

/// What a key sends.
pub fn key_bytes(key: &str, control: bool, key_char: Option<&str>) -> (r: Option<Vec<u8>>)
    ensures
        match r {
            Some(b) => key_sends(key@, control, text::opt_str_view(key_char)) == Some(b@),
            None => key_sends(key@, control, text::opt_str_view(key_char)) is None,
        },
{
    if control && key.unicode_len() == 1 {
        match control_key(key.get_char(0)) {
            Some(b) => {
                let mut v: Vec<u8> = Vec::new();
                v.push(b);
                proof {
                    assert(v@ =~= seq![b]);
                }
                return Some(v);
            },
            None => {},
        }
    }
    match key_text(key) {
        Some(s) => Some(s.as_bytes_vec()),
        None => match key_char {
            Some(t) => Some(t.as_bytes_vec()),
            None => None,
        },
    }
}

/// The characters of a part of a line.
pub open spec fn run_text(run: RunView) -> Seq<char> {
    match run {
        RunView::Text { text, .. } => text,
        RunView::Cursor { cell } => seq![cell.ch],
    }
}

/// The characters of the parts of a line, one behind the other.
pub open spec fn runs_text(s: Seq<RunView>) -> Seq<char>
    decreases s.len(),
{
    if s.len() == 0 {
        Seq::empty()
    } else {
        runs_text(s.drop_last()) + run_text(s.last())
    }
}

/// The characters of a line.
pub open spec fn line_text(row: Seq<Cell>) -> Seq<char> {
    Seq::new(row.len(), |i: int| row[i].ch)
}

/// The parts of a line hold its characters, none is empty, and two that stand
/// side by side differ in style unless the cursor is one of them.
pub proof fn law_runs_hold_the_line(row: Seq<Cell>, cursor: Option<int>)
    ensures
        runs_text(runs(row, cursor)) == line_text(row),
        forall|i: int|
            0 <= i < runs(row, cursor).len() ==> run_text(#[trigger] runs(row, cursor)[i]).len()
                > 0,
        forall|i: int|
            0 < i < runs(row, cursor).len() && (#[trigger] runs(row, cursor)[i]) is Text && runs(
                row,
                cursor,
            )[i - 1] is Text ==> runs(row, cursor)[i]->style != runs(row, cursor)[i - 1]->style,
    decreases row.len(),
{
    if row.len() > 0 {
        let front = runs(row.drop_last(), cursor);
        let all = runs(row, cursor);
        let cell = row.last();
        law_runs_hold_the_line(row.drop_last(), cursor);
        assert(line_text(row) =~= line_text(row.drop_last()).push(cell.ch));
        if cursor == Some(row.len() - 1) {
            assert(all.drop_last() =~= front);
            assert(runs_text(all) =~= runs_text(front).push(cell.ch));
        } else if front.len() > 0 && front.last() is Text && front.last()->style == cell.style {
            assert(all.drop_last() =~= front.drop_last());
            assert(runs_text(all) =~= runs_text(front).push(cell.ch));
            assert forall|i: int| 0 <= i < all.len() implies run_text(#[trigger] all[i]).len()
                > 0 by {
                if i < all.len() - 1 {
                    assert(all[i] == front[i]);
                }
            }
            assert forall|i: int| 0 < i < all.len() && (#[trigger] all[i]) is Text && all[i
                - 1] is Text implies all[i]->style != all[i - 1]->style by {
                assert(all[i - 1] == front[i - 1]);
                assert(front[i] is Text && front[i]->style == all[i]->style);
            }
        } else {
            assert(all.drop_last() =~= front);
            assert(runs_text(all) =~= runs_text(front).push(cell.ch));
        }
    } else {
        assert(line_text(row) =~= Seq::empty());
    }
}

} // verus!
