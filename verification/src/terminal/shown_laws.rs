//! What is kept of a text, how a line is parted, and what keys and colors are.

use vstd::prelude::*;
use vstd::utf8::encode_utf8;
use crate::terminal::buffer;
use crate::terminal::grid::{Cell, CellStyle, Color};
use crate::terminal::renderer;
use crate::terminal::renderer::RunView;

verus! {

/// Of all lines that came, those that came last are kept, as many as may be.
pub proof fn law_last_lines_are_kept(
    lines: Seq<Seq<char>>,
    more: Seq<Seq<char>>,
    max: nat,
    n: int,
)
    requires
        lines.len() <= max,
        0 <= n <= more.len(),
    ensures
        ({
            let came = lines + more.take(n);
            buffer::all_pushed(lines, more, max, n) == (if came.len() <= max {
                came
            } else {
                came.skip(came.len() - max)
            })
        }),
    decreases n,
{
    let came = lines + more.take(n);
    if n > 0 {
        law_last_lines_are_kept(lines, more, max, n - 1);
        let before = lines + more.take(n - 1);
        assert(came =~= before.push(more[n - 1]));
        if before.len() > max {
            assert(before.skip(before.len() - max).push(more[n - 1]).skip(1) =~= came.skip(
                came.len() - max,
            ));
        } else if came.len() > max {
            assert(came.len() - max == 1);
        }
    } else {
        assert(came =~= lines);
    }
}

/// The characters `t`, each with the style.
pub open spec fn styled(style: CellStyle, t: Seq<char>) -> Seq<(char, CellStyle)> {
    Seq::new(t.len(), |i: int| (t[i], style))
}

/// The characters of a line, each with its style.
pub open spec fn row_styled(row: Seq<Cell>) -> Seq<(char, CellStyle)> {
    Seq::new(row.len(), |i: int| (row[i].ch, row[i].style))
}

/// The characters that a part shows, each with its style.
pub open spec fn run_styled(r: RunView) -> Seq<(char, CellStyle)> {
    match r {
        RunView::Text { style, text } => styled(style, text),
        RunView::Cursor { cell } => seq![(cell.ch, cell.style)],
    }
}

/// The characters that parts show, each with its style.
pub open spec fn runs_styled(rs: Seq<RunView>) -> Seq<(char, CellStyle)> {
    rs.map_values(|r: RunView| run_styled(r)).flatten()
}

proof fn lemma_styled_push(rs: Seq<RunView>, r: RunView)
    ensures
        runs_styled(rs.push(r)) == runs_styled(rs) + run_styled(r),
{
    let f = |r: RunView| run_styled(r);
    assert(rs.push(r).map_values(f) =~= rs.map_values(f).push(run_styled(r)));
    rs.map_values(f).lemma_flatten_push(run_styled(r));
}

/// The parts of a line show its characters, one for one, each in its own style.
pub proof fn law_parts_keep_the_places(row: Seq<Cell>, cursor: Option<int>)
    ensures
        runs_styled(renderer::runs(row, cursor)) == row_styled(row),
    decreases row.len(),
{
    let f = |r: RunView| run_styled(r);
    if row.len() == 0 {
        let none = Seq::<RunView>::empty();
        assert(none.map_values(f) =~= Seq::<Seq<(char, CellStyle)>>::empty());
        assert(runs_styled(none) =~= row_styled(row));
    } else {
        let front = renderer::runs(row.drop_last(), cursor);
        let cell = row.last();
        law_parts_keep_the_places(row.drop_last(), cursor);
        assert(row_styled(row) =~= row_styled(row.drop_last()).push((cell.ch, cell.style)));
        if cursor == Some(row.len() - 1) {
            lemma_styled_push(front, RunView::Cursor { cell });
        } else if front.len() > 0 && front.last() is Text && front.last()->style == cell.style {
            let t = front.last()->text;
            lemma_styled_push(front.drop_last(), front.last());
            assert(front =~= front.drop_last().push(front.last()));
            let longer = RunView::Text { style: cell.style, text: t.push(cell.ch) };
            lemma_styled_push(front.drop_last(), longer);
            assert(run_styled(longer) =~= run_styled(front.last()).push((cell.ch, cell.style)));
        } else {
            let one = RunView::Text { style: cell.style, text: seq![cell.ch] };
            lemma_styled_push(front, one);
            assert(run_styled(one) =~= seq![(cell.ch, cell.style)]);
        }
    }
}

/// The cursor stands by itself between what is before and what is behind it; a
/// line without it has no such part.
pub proof fn law_cursor_stands_by_itself(row: Seq<Cell>, k: int)
    ensures
        forall|i: int|
            0 <= i < renderer::runs(row, None).len() ==> (#[trigger] renderer::runs(
                row,
                None,
            )[i]) is Text,
        0 <= k < row.len() ==> renderer::runs(row, Some(k)) == renderer::runs(row.take(k), None)
            + seq![RunView::Cursor { cell: row[k] }] + renderer::runs(row.skip(k + 1), None),
        !(0 <= k < row.len()) ==> renderer::runs(row, Some(k)) == renderer::runs(row, None),
    decreases row.len(),
{
    if row.len() > 0 {
        let less = row.drop_last();
        law_cursor_stands_by_itself(less, k);
        if k == row.len() - 1 {
            assert(row.take(k) =~= less);
            assert(row.skip(k + 1) =~= Seq::empty());
        } else if 0 <= k < row.len() {
            assert(row.take(k) =~= less.take(k));
            assert(row.skip(k + 1).drop_last() =~= less.skip(k + 1));
            assert(row.skip(k + 1).last() == row.last());
            let a = renderer::runs(row.take(k), None) + seq![RunView::Cursor { cell: row[k] }];
            let b = renderer::runs(less.skip(k + 1), None);
            assert(renderer::runs(less, Some(k)) == a + b);
            if b.len() > 0 {
                assert((a + b).last() == b.last());
                assert((a + b).drop_last() =~= a + b.drop_last());
            } else {
                assert((a + b).last() is Cursor);
            }
            assert(renderer::runs(row, Some(k)) =~= a + renderer::runs(row.skip(k + 1), None));
        }
    }
}

/// A text for a terminal has `\r\n` for each line feed, and is else as it was.
pub proof fn law_returns(a: Seq<char>, b: Seq<char>, c: char)
    ensures
        renderer::with_returns(Seq::empty()) == Seq::<char>::empty(),
        renderer::with_returns(seq![c]) == (if c == '\n' {
            seq!['\r', '\n']
        } else {
            seq![c]
        }),
        renderer::with_returns(a + b) == renderer::with_returns(a) + renderer::with_returns(b),
    decreases b.len(),
{
    reveal_with_fuel(renderer::with_returns, 2);
    assert(seq![c].drop_last() =~= Seq::empty());
    if b.len() == 0 {
        assert(a + b =~= a);
        assert(renderer::with_returns(a) + renderer::with_returns(b) =~= renderer::with_returns(a));
    } else {
        law_returns(a, b.drop_last(), c);
        assert((a + b).drop_last() =~= a + b.drop_last());
        assert((a + b).last() == b.last());
        assert(renderer::with_returns(a + b) =~= renderer::with_returns(a)
            + renderer::with_returns(b));
    }
}

/// A control character is the last five bits of the key's. Letters of both cases
/// have one, `[`, `\`, `]` and the blank, and nothing else.
pub proof fn law_control_characters(c: char)
    ensures
        renderer::control_byte(c) is Some <==> ('a' <= c <= 'z') || ('A' <= c <= 'Z') || c == '['
            || c == '\\' || c == ']' || c == ' ',
        renderer::control_byte(c) is Some ==> renderer::control_byte(c)->0 as int == (c as int)
            % 32,
{
}

/// With the control key a letter sends its control character, whatever it types;
/// a key that has a name sends what the name stands for; any other what it types.
pub proof fn law_what_keys_send(
    key: Seq<char>,
    control: bool,
    key_char: Option<Seq<char>>,
)
    ensures
        control && key.len() == 1 && renderer::control_byte(key[0]) is Some
            ==> renderer::key_sends(key, control, key_char) == Some(
            seq![((key[0] as int) % 32) as u8],
        ),
        key.len() == 1 && !control ==> renderer::key_sends(key, control, key_char) == (
        match key_char {
            Some(t) => Some(encode_utf8(t)),
            None => None,
        }),
        renderer::key_sends("enter"@, control, key_char) == Some(encode_utf8("\r"@)),
        renderer::key_sends("tab"@, control, key_char) == Some(encode_utf8("\t"@)),
        renderer::key_sends("backspace"@, control, key_char) == Some(encode_utf8("\x7f"@)),
        renderer::key_sends("escape"@, control, key_char) == Some(encode_utf8("\x1b"@)),
        renderer::key_sends("delete"@, control, key_char) == Some(encode_utf8("\x1b[3~"@)),
        renderer::key_sends("up"@, control, key_char) == Some(encode_utf8("\x1b[A"@)),
        renderer::key_sends("down"@, control, key_char) == Some(encode_utf8("\x1b[B"@)),
        renderer::key_sends("right"@, control, key_char) == Some(encode_utf8("\x1b[C"@)),
        renderer::key_sends("left"@, control, key_char) == Some(encode_utf8("\x1b[D"@)),
        renderer::key_sends("home"@, control, key_char) == Some(encode_utf8("\x1b[H"@)),
        renderer::key_sends("end"@, control, key_char) == Some(encode_utf8("\x1b[F"@)),
        renderer::key_sends("pageup"@, control, key_char) == Some(encode_utf8("\x1b[5~"@)),
        renderer::key_sends("pagedown"@, control, key_char) == Some(encode_utf8("\x1b[6~"@)),
{
    reveal_strlit("enter");
    reveal_strlit("tab");
    reveal_strlit("backspace");
    reveal_strlit("escape");
    reveal_strlit("delete");
    reveal_strlit("up");
    reveal_strlit("down");
    reveal_strlit("right");
    reveal_strlit("left");
    reveal_strlit("home");
    reveal_strlit("end");
    reveal_strlit("pageup");
    reveal_strlit("pagedown");
    assert("enter"@[0] == 'e' && "enter"@.len() == 5);
    assert("tab"@[0] == 't' && "tab"@.len() == 3);
    assert("backspace"@.len() == 9);
    assert("escape"@[0] == 'e' && "escape"@.len() == 6);
    assert("delete"@[0] == 'd' && "delete"@.len() == 6);
    assert("up"@.len() == 2);
    assert("down"@[0] == 'd' && "down"@.len() == 4);
    assert("right"@[0] == 'r' && "right"@.len() == 5);
    assert("left"@[0] == 'l' && "left"@.len() == 4);
    assert("home"@[0] == 'h' && "home"@.len() == 4);
    assert("end"@[0] == 'e' && "end"@.len() == 3);
    assert("pageup"@[0] == 'p' && "pageup"@.len() == 6);
    assert("pagedown"@.len() == 8);
    if key.len() == 1 && control && renderer::control_byte(key[0]) is Some {
        law_control_characters(key[0]);
    }
}

/// Behind the basic colors stands a cube of six levels of red, green and blue, and
/// behind it a scale of greys.
pub proof fn law_palette(r: int, g: int, b: int, k: int)
    requires
        0 <= r < 6,
        0 <= g < 6,
        0 <= b < 6,
        0 <= k < 24,
    ensures
        ({
            let levels = seq![0int, 95, 135, 175, 215, 255];
            renderer::palette(16 + 36 * r + 6 * g + b) == levels[r] * 0x10000 + levels[g] * 0x100
                + levels[b]
        }),
        renderer::palette(232 + k) == (8 + 10 * k) * 0x10101,
        0 <= k < 16 ==> renderer::palette(k) == seq![
            0x45475aint,
            0xf38ba8,
            0xa6e3a1,
            0xf9e2af,
            0x89b4fa,
            0xcba6f7,
            0x94e2d5,
            0xbac2de,
            0x585b70,
            0xf37799,
            0x94d98d,
            0xf5cf78,
            0x74a7f5,
            0xc094f5,
            0x7ed7c9,
            0xcdd6f4,
        ][k],
{
    let n = 36 * r + 6 * g + b;
    assert(n / 36 == r && n % 36 == 6 * g + b) by (nonlinear_arith)
        requires
            n == 36 * r + 6 * g + b,
            0 <= 6 * g + b < 36,
    ;
    assert((6 * g + b) / 6 == g) by (nonlinear_arith)
        requires
            0 <= b < 6,
    ;
    assert(n % 6 == b) by (nonlinear_arith)
        requires
            n == 36 * r + 6 * g + b,
            0 <= b < 6,
    ;
    assert(n == 6 * (6 * r + g) + b);
}

/// A color by its parts has them as the bytes of its number; the default is that
/// of the screen.
pub proof fn law_color_numbers(r: u8, g: u8, b: u8, i: u8, default: int)
    ensures
        ({
            let n = renderer::color_number(Color::Rgb(r, g, b), default);
            &&& n / 0x10000 == r
            &&& n / 0x100 % 0x100 == g
            &&& n % 0x100 == b
        }),
        renderer::color_number(Color::Default, default) == default,
        renderer::color_number(Color::Indexed(i), default) == renderer::palette(i as int),
{
    let (x, y, z) = (r as int, g as int, b as int);
    let n = x * 65536 + y * 256 + z;
    assert(n / 0x10000 == x && n / 0x100 == x * 256 + y && (x * 256 + y) % 0x100 == y && n % 0x100
        == z) by (nonlinear_arith)
        requires
            n == x * 65536 + y * 256 + z,
            0 <= x < 256,
            0 <= y < 256,
            0 <= z < 256,
    ;
}

} // verus!
