//! The terminal: its screen, its buffer and how it is drawn.

use cuartel::terminal::buffer::TerminalBuffer;
use cuartel::terminal::grid::{Cell, CellStyle, Color, Grid, TermEvent, Terminal};
use cuartel::terminal::renderer::{
    bg_color, cursor_char, fg_color, key_bytes, palette_color, row_runs, text_bytes, Run,
    DEFAULT_COLS, DEFAULT_FG, DEFAULT_ROWS,
};

fn print(s: &str) -> Vec<TermEvent> {
    s.chars()
        .map(|c| if (c as u32) < 32 { TermEvent::Execute(c as u8) } else { TermEvent::Print(c) })
        .collect()
}

fn csi(params: &[u16], action: char) -> Vec<TermEvent> {
    vec![TermEvent::Csi { params: params.iter().map(|p| vec![*p]).collect(), action }]
}

fn lines(t: &Terminal) -> Vec<String> {
    t.grid
        .visible_rows()
        .iter()
        .map(|r| r.iter().map(|c| c.ch).collect::<String>().trim_end().to_string())
        .collect()
}

#[test]
fn characters_wrap_and_scroll() {
    let mut t = Terminal::new(2, 3);
    t.act(&print("abcd"));
    assert_eq!(lines(&t), vec!["abc", "d"]);
    t.act(&print("\r\nxy"));
    assert_eq!(lines(&t), vec!["abc", "d", "xy"]);
    assert_eq!(t.grid.scrollback.len(), 1);
    assert_eq!((t.grid.cursor_row, t.grid.cursor_col), (1, 2));
}

#[test]
fn scrollback_is_unbounded() {
    let mut t = Terminal::new(1, 1);
    t.act(&print("x"));
    let mut feeds = Vec::new();
    for _ in 0..6_010 {
        feeds.push(TermEvent::Execute(10));
    }
    t.act(&feeds);
    assert_eq!(t.grid.scrollback.len(), 6_010);
    assert_eq!(t.grid.scrollback[0][0].ch, 'x');
}

#[test]
fn control_characters_move_the_cursor() {
    let mut t = Terminal::new(1, 20);
    t.act(&print("ab\t"));
    assert_eq!(t.grid.cursor_col, 8);
    t.act(&print("\t\t\t"));
    assert_eq!(t.grid.cursor_col, 19);
    t.act(&print("\u{8}"));
    assert_eq!(t.grid.cursor_col, 18);
    t.act(&print("\r\u{8}\u{7}"));
    assert_eq!(t.grid.cursor_col, 0);
}

#[test]
fn sequences_move_and_erase() {
    let mut t = Terminal::new(3, 4);
    t.act(&print("abcd"));
    t.act(&csi(&[2, 2], 'H'));
    assert_eq!((t.grid.cursor_row, t.grid.cursor_col), (1, 1));
    t.act(&csi(&[9], 'B'));
    t.act(&csi(&[], 'C'));
    assert_eq!((t.grid.cursor_row, t.grid.cursor_col), (2, 2));
    t.act(&csi(&[1], 'A'));
    t.act(&csi(&[9], 'D'));
    assert_eq!((t.grid.cursor_row, t.grid.cursor_col), (1, 0));
    t.act(&csi(&[1, 2], 'f'));
    t.act(&csi(&[], 'P'));
    assert_eq!(lines(&t)[0], "acd");
    t.act(&csi(&[1], 'K'));
    assert_eq!(lines(&t)[0], "  d");
    t.act(&csi(&[2], 'J'));
    assert_eq!(lines(&t), vec!["", "", ""]);
}

#[test]
fn styles_follow_their_codes() {
    let mut t = Terminal::new(1, 10);
    t.act(&csi(&[1, 31, 44], 'm'));
    assert_eq!(
        t.grid.style,
        CellStyle { fg: Color::Indexed(1), bg: Color::Indexed(4), bold: true }
    );
    t.act(&csi(&[38, 2, 1, 2, 3, 48, 5, 200, 22], 'm'));
    assert_eq!(
        t.grid.style,
        CellStyle { fg: Color::Rgb(1, 2, 3), bg: Color::Indexed(200), bold: false }
    );
    t.act(&csi(&[97, 107], 'm'));
    assert_eq!(t.grid.style.fg, Color::Indexed(15));
    t.act(&csi(&[], 'm'));
    t.act(&csi(&[0], 'm'));
    assert_eq!(t.grid.style, CellStyle::default());
}

#[test]
fn resizing_keeps_what_fits() {
    let mut t = Terminal::new(2, 4);
    t.act(&print("abcdef"));
    t.resize(1, 2);
    assert_eq!(lines(&t), vec!["ab"]);
    assert_eq!((t.grid.cursor_row, t.grid.cursor_col), (0, 1));
    t.resize(2, 4);
    assert_eq!(lines(&t), vec!["ab", ""]);
}

#[test]
fn a_screen_without_places_takes_what_needs_none() {
    let mut g = Grid::new(0, 0);
    g.execute(13);
    g.execute(9);
    g.csi_dispatch(&vec![vec![5], vec![5]], 'H');
    g.csi_dispatch(&vec![vec![2]], 'J');
    assert_eq!((g.cursor_row, g.cursor_col), (0, 0));
}

#[test]
fn buffers_keep_the_last_lines() {
    let mut b = TerminalBuffer::new(2);
    b.push_text("a\nb\nc");
    assert_eq!(b.lines(), &vec!["b".to_string(), "c".to_string()]);
    b.push_line("d");
    assert_eq!(b.lines(), &vec!["c".to_string(), "d".to_string()]);
    b.clear();
    assert!(b.lines().is_empty());
}

#[test]
fn rows_are_drawn_in_runs() {
    let red = CellStyle { fg: Color::Indexed(1), bg: Color::Default, bold: false };
    let plain = CellStyle::default();
    let row = vec![
        Cell { ch: 'a', style: plain },
        Cell { ch: 'b', style: plain },
        Cell { ch: 'c', style: red },
    ];
    let runs = row_runs(&row, Some(1));
    let texts: Vec<String> = runs
        .iter()
        .map(|r| match r {
            Run::Text { text, .. } => text.clone(),
            Run::Cursor { cell } => format!("[{}]", cursor_char(cell)),
        })
        .collect();
    assert_eq!(texts, vec!["a".to_string(), "[b]".to_string(), "c".to_string()]);
    let whole = row_runs(&row, None);
    assert_eq!(whole.len(), 2);
}

#[test]
fn colors_have_exact_values() {
    assert_eq!(palette_color(16), 0x000000);
    assert_eq!(palette_color(231), 0xffffff);
    assert_eq!(palette_color(232), 0x080808);
    assert_eq!(palette_color(196), 0xff0000);
    let plain = CellStyle::default();
    assert_eq!(fg_color(plain), DEFAULT_FG);
    assert_eq!(bg_color(plain), None);
    let rgb = CellStyle { fg: Color::Rgb(1, 2, 3), bg: Color::Rgb(4, 5, 6), bold: false };
    assert_eq!(fg_color(rgb), 0x010203);
    assert_eq!(bg_color(rgb), None);
    let indexed = CellStyle { fg: Color::Default, bg: Color::Indexed(16), bold: false };
    assert_eq!(bg_color(indexed), Some(0x000000));
    assert_eq!((DEFAULT_ROWS, DEFAULT_COLS), (40, 120));
}

#[test]
fn keys_send_bytes() {
    assert_eq!(key_bytes("c", true, None), Some(vec![3]));
    assert_eq!(key_bytes("enter", false, None), Some(vec![13]));
    assert_eq!(key_bytes("up", false, None), Some(b"\x1b[A".to_vec()));
    assert_eq!(key_bytes("a", false, Some("a")), Some(vec![97]));
    assert_eq!(key_bytes("f13", false, None), None);
    assert_eq!(text_bytes("é"), vec![0xc3, 0xa9]);
}

#[test]
fn runs_hold_every_character_of_a_line() {
    let bold = CellStyle { bold: true, ..CellStyle::default() };
    let row: Vec<Cell> = "abcde"
        .chars()
        .enumerate()
        .map(|(i, ch)| Cell { ch, style: if i > 2 { bold } else { CellStyle::default() } })
        .collect();
    for cursor in [None, Some(0), Some(2), Some(4), Some(9)] {
        let text: String = row_runs(&row, cursor)
            .iter()
            .map(|r| match r {
                Run::Text { text, .. } => text.clone(),
                Run::Cursor { cell } => cell.ch.to_string(),
            })
            .collect();
        assert_eq!(text, "abcde");
    }
    assert_eq!(row_runs(&row, None).len(), 2);
    assert_eq!(row_runs(&row, Some(4)).len(), 3);
}

#[test]
fn bytes_change_the_screen() {
    let mut t = Terminal::new(2, 6);
    assert!(t.advance("h\u{e9}\r\n\x1b[1;31mred".as_bytes()));
    assert_eq!(lines(&t), vec!["h\u{e9}", "red"]);
    let red = CellStyle { fg: Color::Indexed(1), bg: Color::Default, bold: true };
    assert_eq!(t.grid.screen[1][0], Cell { ch: 'r', style: red });
    assert_eq!(t.grid.screen[0][0].style, CellStyle::default());
    assert!(t.advance(b"\x1b[1;2H\x1b[K\x1b[38;2;1;2;3mX"));
    assert_eq!(lines(&t), vec!["hX", "red"]);
    assert_eq!(t.grid.screen[0][1].style.fg, Color::Rgb(1, 2, 3));
}

#[test]
fn portions_of_bytes_do_not_matter() {
    let bytes = "a\u{20ac}\x1b[2;3Hb\x1b[31mc\u{e2}".as_bytes();
    let mut whole = Terminal::new(3, 8);
    assert!(whole.advance(bytes));
    let mut parts = Terminal::new(3, 8);
    for b in bytes {
        assert!(parts.advance(&[*b]));
    }
    assert_eq!(lines(&whole), lines(&parts));
    assert_eq!(lines(&whole), vec!["a\u{20ac}", "  bc\u{e2}", ""]);
    assert_eq!(whole.grid.style, parts.grid.style);
}

#[test]
fn a_screen_without_places_shows_nothing() {
    let mut t = Terminal::new(0, 0);
    assert!(t.advance(b"\r\x1b[31m"));
    assert_eq!(t.grid.style.fg, Color::Indexed(1));
    assert!(!t.advance(b"\x1b[32mx"));
    assert_eq!(t.grid.style.fg, Color::Indexed(1));
    assert!(!t.advance(b"\n"));
    assert!(!t.advance(b"\x1b[P"));
}
