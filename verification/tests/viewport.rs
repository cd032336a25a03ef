//! Offset translation, grapheme safety, soft-wrap layout, gutters, cursor
//! placement and whole-frame rendering on concrete buffers.

use docpaint::buffer::TextBuffer;
use docpaint::events::HighlightEvent;
use docpaint::gutter::{decorate, GutterKind};
use docpaint::render::{
    cursor_position, render_document, visible_line_positions, Input, OverlayTags, Viewport,
};
use docpaint::sources::{
    diagnostic_events, selection_events, Diagnostic, SelectionRange, Severity,
};
use docpaint::style::{Color, Style, Theme};

fn rgb(r: u8, g: u8, b: u8) -> Color {
    Color { r, g, b }
}

fn empty() -> Style {
    Style {
        fg: None,
        bg: None,
        underline_color: None,
        underline_kind: None,
        add_modifier: 0,
        sub_modifier: 0,
    }
}

fn fg(c: Color) -> Style {
    let mut s = empty();
    s.fg = Some(c);
    s
}

fn ascii_buffer(text: &str) -> TextBuffer {
    let chars: Vec<char> = text.chars().collect();
    let flags = vec![true; chars.len() + 1];
    TextBuffer::from_parts(chars, flags).unwrap()
}

fn plain_theme() -> Theme {
    Theme {
        highlights: vec![empty()],
        gutter: fg(rgb(100, 100, 100)),
        gutter_selected: fg(rgb(250, 250, 250)),
        gutter_virtual: fg(rgb(60, 60, 60)),
        gutter_selected_virtual: fg(rgb(150, 150, 150)),
        hint: fg(rgb(0, 200, 200)),
        info: fg(rgb(0, 0, 200)),
        warning: fg(rgb(200, 200, 0)),
        error: fg(rgb(200, 0, 0)),
    }
}

#[test]
fn buffer_counts_lines_chars_bytes() {
    let b = ascii_buffer("one\ntwo\nthree");
    assert_eq!(b.len_chars(), 13);
    assert_eq!(b.len_bytes(), 13);
    assert_eq!(b.len_lines(), 3);
    assert_eq!(b.char_to_line(0), 0);
    assert_eq!(b.char_to_line(3), 0);
    assert_eq!(b.char_to_line(4), 1);
    assert_eq!(b.line_to_char(0), 0);
    assert_eq!(b.line_to_char(1), 4);
    assert_eq!(b.line_to_char(2), 8);
    assert_eq!(b.line_to_char(3), 13);
    assert_eq!(b.line_to_byte(2), 8);
}

#[test]
fn buffer_rejects_misshapen_flags() {
    let chars: Vec<char> = "ab".chars().collect();
    assert!(TextBuffer::from_parts(chars.clone(), vec![true, true]).is_none());
    assert!(TextBuffer::from_parts(chars.clone(), vec![false, true, true]).is_none());
    assert!(TextBuffer::from_parts(chars, vec![true, true, false]).is_none());
}

#[test]
fn multibyte_offsets_round_trip() {
    // 'e' + combining acute accent + 'x': the accent must never be split
    // from its base character
    let chars: Vec<char> = vec!['e', '\u{301}', 'x'];
    let flags = vec![true, false, true, true];
    let b = TextBuffer::from_parts(chars, flags).unwrap();
    assert_eq!(b.len_chars(), 3);
    assert_eq!(b.len_bytes(), 4); // 1 + 2 + 1
    assert_eq!(b.char_to_byte(0), 0);
    assert_eq!(b.char_to_byte(1), 1);
    assert_eq!(b.char_to_byte(2), 3);
    assert_eq!(b.byte_to_char(0), 0);
    assert_eq!(b.byte_to_char(1), 1);
    assert_eq!(b.byte_to_char(2), 1); // mid-character rounds down
    assert_eq!(b.byte_to_char(3), 2);
}

#[test]
fn grapheme_safe_never_splits_a_cluster() {
    let chars: Vec<char> = vec!['e', '\u{301}', 'x'];
    let flags = vec![true, false, true, true];
    let b = TextBuffer::from_parts(chars, flags).unwrap();
    // byte 1 lands on the accent: the next boundary is byte 3
    assert_eq!(b.grapheme_safe(0), 0);
    assert_eq!(b.grapheme_safe(1), 3);
    assert_eq!(b.grapheme_safe(2), 3);
    assert_eq!(b.grapheme_safe(3), 3);
    assert_eq!(b.grapheme_safe(4), 4);
    // past the end clamps to the end
    assert_eq!(b.grapheme_safe(9), 4);
    // the round trip through the character index comes back unchanged
    let safe = b.grapheme_safe(1);
    assert_eq!(b.char_to_byte(b.byte_to_char(safe)), safe);
}

#[test]
fn grapheme_safe_emoji_with_modifier() {
    // thumbs-up with a skin-tone modifier: two characters, one cluster
    let chars: Vec<char> = "\u{1F44D}\u{1F3FD}a".chars().collect();
    assert_eq!(chars.len(), 3);
    let flags = vec![true, false, true, true];
    let b = TextBuffer::from_parts(chars, flags).unwrap();
    assert_eq!(b.len_bytes(), 9);
    for mid in 1..=8 {
        let safe = b.grapheme_safe(mid);
        assert!(safe == 8 || safe == 9, "byte {mid} rounded to {safe}");
    }
}

#[test]
fn visible_range_clamps_to_buffer() {
    let b = ascii_buffer("a\nb\nc\nd\n");
    // 5 lines (the trailing newline opens an empty last line)
    assert_eq!(b.len_lines(), 5);
    let (s0, e0) = b.visible_char_range(0, 2);
    assert_eq!((s0, e0), (0, 4));
    let (s1, e1) = b.visible_char_range(2, 100);
    assert_eq!((s1, e1), (2, 8));
    // a stale anchor past the end clamps
    let (s2, e2) = b.visible_char_range(999, 2);
    assert_eq!((s2, e2), (8, 8));
    let (bs, be) = b.visible_byte_range(0, 2);
    assert_eq!((bs, be), (0, 4));
}

#[test]
fn visible_range_of_empty_buffer_is_empty() {
    let b = ascii_buffer("");
    assert_eq!(b.visible_char_range(0, 10), (0, 0));
    assert_eq!(b.visible_byte_range(5, 3), (0, 0));
}

#[test]
fn selection_source_is_focus_gated() {
    let ranges = vec![
        SelectionRange { anchor: 2, head: 5 },
        SelectionRange { anchor: 9, head: 7 },
    ];
    let focused = selection_events(&ranges, true, 3);
    assert!(!focused.is_empty());
    let unfocused = selection_events(&ranges, false, 3);
    assert!(unfocused.is_empty());
    // a reversed range still covers its extent
    let mut covered = vec![false; 12];
    let mut stack = 0usize;
    for ev in &focused {
        match ev {
            HighlightEvent::Start { .. } => stack += 1,
            HighlightEvent::End => stack -= 1,
            HighlightEvent::Span { start, end } => {
                if stack > 0 {
                    for p in *start..*end {
                        covered[p] = true;
                    }
                }
            },
        }
    }
    for p in 0..12 {
        let expect = (2..5).contains(&p) || (7..9).contains(&p);
        assert_eq!(covered[p], expect, "position {p}");
    }
}

#[test]
fn diagnostic_source_coalesces_overlaps() {
    let diags = vec![
        Diagnostic { start: 2, end: 6, severity: Severity::Error },
        Diagnostic { start: 4, end: 9, severity: Severity::Error },
        Diagnostic { start: 12, end: 14, severity: Severity::Error },
        Diagnostic { start: 3, end: 20, severity: Severity::Warning },
    ];
    let events = diagnostic_events(&diags, Severity::Error, 5, 0, 30);
    // the overlapping error ranges coalesce; the warning is another bucket
    let mut spans = Vec::new();
    for ev in &events {
        if let HighlightEvent::Span { start, end } = ev {
            spans.push((*start, *end));
        }
    }
    assert_eq!(spans, vec![(2, 9), (12, 14)]);
}

#[test]
fn diagnostic_source_respects_window() {
    let diags = vec![
        Diagnostic { start: 2, end: 6, severity: Severity::Hint },
        Diagnostic { start: 40, end: 45, severity: Severity::Hint },
    ];
    let events = diagnostic_events(&diags, Severity::Hint, 1, 0, 10);
    let mut spans = Vec::new();
    for ev in &events {
        if let HighlightEvent::Span { start, end } = ev {
            spans.push((*start, *end));
        }
    }
    // only the diagnostic intersecting the window appears
    assert_eq!(spans, vec![(2, 6)]);
}

#[test]
fn wrapped_line_has_one_first_visual_row() {
    // line 1 is 20 characters: at 8 columns it takes 3 visual rows
    let b = ascii_buffer("short\nabcdefghijklmnopqrst\n");
    let lines = visible_line_positions(&b, 6, 5, 8);
    assert_eq!(lines.len(), 4);
    let on_line_1: Vec<_> = lines.iter().filter(|l| l.doc_line == 1).collect();
    assert_eq!(on_line_1.len(), 3);
    assert_eq!(
        on_line_1.iter().filter(|l| l.first_visual_line).count(),
        1
    );
    assert!(on_line_1[0].first_visual_line);
    assert!(!on_line_1[1].first_visual_line);
    assert!(!on_line_1[2].first_visual_line);
    assert_eq!(on_line_1[0].start_char_idx, 6);
    assert_eq!(on_line_1[1].start_char_idx, 14);
    assert_eq!(on_line_1[2].start_char_idx, 22);
    for (i, l) in lines.iter().enumerate() {
        assert_eq!(l.visual_line as usize, i);
    }
    // the empty last line takes the fourth row
    assert_eq!(lines[3].doc_line, 2);
    assert!(lines[3].first_visual_line);
}

#[test]
fn gutter_styles_continuation_rows_as_virtual() {
    let b = ascii_buffer("short\nabcdefghijklmnopqrst\n");
    let theme = plain_theme();
    let lines = visible_line_positions(&b, 6, 5, 8);
    let gutters = vec![GutterKind::LineNumbers];
    let cells = decorate(&lines, &gutters, &Vec::new(), &Vec::new(), &theme, 3);
    assert_eq!(cells.len(), 4);
    // row 0: first visual row of line 1 carries its number, 1-based
    assert_eq!(cells[0][0].text.as_deref(), Some("2"));
    assert_eq!(cells[0][0].style, theme.gutter);
    // rows 1 and 2: continuation rows carry no text and the virtual style
    assert_eq!(cells[1][0].text, None);
    assert_eq!(cells[1][0].style, theme.gutter_virtual);
    assert_eq!(cells[2][0].text, None);
    assert_eq!(cells[2][0].style, theme.gutter_virtual);
    assert_eq!(cells[3][0].text.as_deref(), Some("3"));
    for (i, row) in cells.iter().enumerate() {
        assert_eq!(row[0].row as usize, i);
    }
}

#[test]
fn gutter_composes_widths_left_to_right() {
    let b = ascii_buffer("a\nb\n");
    let theme = plain_theme();
    let lines = visible_line_positions(&b, 0, 2, 80);
    let gutters = vec![GutterKind::Diagnostics, GutterKind::Spacer, GutterKind::LineNumbers];
    let diag_lines = vec![(0usize, Severity::Warning)];
    let cursor_lines = vec![0usize];
    // 123 lines in the document: the number gutter is 3 + 1 wide
    let cells = decorate(&lines, &gutters, &cursor_lines, &diag_lines, &theme, 123);
    assert_eq!(cells[0].len(), 3);
    assert_eq!(cells[0][0].column, 0);
    assert_eq!(cells[0][1].column, 1);
    assert_eq!(cells[0][2].column, 2);
    // the selected line gets the selected base style; the diagnostic
    // marker patches the warning foreground over it
    assert_eq!(cells[0][0].text.as_deref(), Some("!"));
    assert_eq!(cells[0][0].style.fg, theme.warning.fg);
    assert_eq!(cells[0][1].style, theme.gutter_selected);
    assert_eq!(cells[1][1].style, theme.gutter);
}

#[test]
fn gutter_marker_takes_worst_severity() {
    let b = ascii_buffer("a\n");
    let theme = plain_theme();
    let lines = visible_line_positions(&b, 0, 1, 80);
    let gutters = vec![GutterKind::Diagnostics];
    let diag_lines = vec![
        (0usize, Severity::Hint),
        (0usize, Severity::Error),
        (0usize, Severity::Warning),
    ];
    let cells = decorate(&lines, &gutters, &Vec::new(), &diag_lines, &theme, 2);
    assert_eq!(cells[0][0].style.fg, theme.error.fg);
}

#[test]
fn cursor_lands_on_its_viewport_row() {
    let b = ascii_buffer("one\ntwo\nthree\nfour\n");
    // anchor on line 1, 2 rows visible: lines 1 and 2
    assert_eq!(cursor_position(&b, 9, 4, 2), Some((1, 1)));
    assert_eq!(cursor_position(&b, 4, 4, 2), Some((0, 0)));
    // line 3 is below the viewport
    assert_eq!(cursor_position(&b, 15, 4, 2), None);
    // line 0 is above it
    assert_eq!(cursor_position(&b, 0, 4, 2), None);
}

#[test]
fn render_document_frames_one_buffer() {
    let b = ascii_buffer("fn main() {}\n");
    let kw = fg(rgb(200, 50, 50));
    let ident = fg(rgb(50, 50, 200));
    let mut diag_style = empty();
    diag_style.underline_color = Some(rgb(255, 0, 0));
    let mut theme = plain_theme();
    theme.highlights = vec![empty(), kw, ident, fg(rgb(9, 9, 9)), diag_style];
    let syntax = vec![
        HighlightEvent::Start { tag: 1 },
        HighlightEvent::Span { start: 0, end: 2 },
        HighlightEvent::End,
        HighlightEvent::Start { tag: 2 },
        HighlightEvent::Span { start: 3, end: 7 },
        HighlightEvent::End,
    ];
    let selection = vec![SelectionRange { anchor: 3, head: 3 }];
    let diagnostics = vec![Diagnostic { start: 3, end: 7, severity: Severity::Error }];
    let gutters = vec![GutterKind::LineNumbers];
    let tags = OverlayTags { selection: 3, hint: 4, info: 4, warning: 4, error: 4 };
    let input = Input {
        viewport: Viewport { anchor: 0, rows: 2, columns: 80 },
        is_focused: true,
    };
    let out = render_document(
        &b,
        &theme,
        &input,
        &syntax,
        &selection,
        0,
        &diagnostics,
        &gutters,
        tags,
        rgb(220, 220, 220),
        0,
    );
    assert_eq!((out.start_char, out.end_char), (0, 13));
    let total: usize = out.runs.iter().map(|r| r.len).sum();
    assert_eq!(total, 13);
    // the diagnostic underlines "main" while the syntax colour stays
    let mut off = 0usize;
    let mut seen_main = false;
    for r in &out.runs {
        if off <= 4 && 4 < off + r.len {
            assert_eq!(r.color, rgb(50, 50, 200));
            assert_eq!(r.underline, Some(rgb(255, 0, 0)));
            seen_main = true;
        }
        off += r.len;
    }
    assert!(seen_main);
    assert_eq!(out.lines.len(), 2);
    assert_eq!(out.gutter.len(), 2);
    assert_eq!(out.gutter[0][0].text.as_deref(), Some("1"));
    assert_eq!(out.cursor, Some((0, 3)));
}

#[test]
fn render_document_empty_selection_has_no_cursor() {
    let b = ascii_buffer("abc");
    let theme = plain_theme();
    let syntax: Vec<HighlightEvent> = Vec::new();
    let selection: Vec<SelectionRange> = Vec::new();
    let diagnostics: Vec<Diagnostic> = Vec::new();
    let gutters: Vec<GutterKind> = Vec::new();
    let tags = OverlayTags { selection: 0, hint: 0, info: 0, warning: 0, error: 0 };
    let input = Input {
        viewport: Viewport { anchor: 0, rows: 1, columns: 10 },
        is_focused: false,
    };
    let out = render_document(
        &b,
        &theme,
        &input,
        &syntax,
        &selection,
        0,
        &diagnostics,
        &gutters,
        tags,
        rgb(0, 0, 0),
        0,
    );
    assert_eq!(out.cursor, None);
    let total: usize = out.runs.iter().map(|r| r.len).sum();
    assert_eq!(total, 3);
}

#[test]
fn zero_length_selection_ranges_are_filtered() {
    // a bare cursor (anchor == head) carries no visual extent and must
    // not corrupt the stream
    let ranges = vec![
        SelectionRange { anchor: 2, head: 2 },
        SelectionRange { anchor: 5, head: 8 },
    ];
    let events = selection_events(&ranges, true, 1);
    let mut spans = Vec::new();
    for ev in &events {
        if let HighlightEvent::Span { start, end } = ev {
            spans.push((*start, *end));
        }
    }
    assert_eq!(spans, vec![(5, 8)]);
}

#[test]
fn higher_severity_wins_same_range() {
    // a warning and an error over the same characters: the error bucket
    // is merged last, so its style lands on top
    let b = ascii_buffer("abcdefgh\n");
    let mut theme = plain_theme();
    theme.highlights = vec![
        empty(),
        fg(rgb(1, 1, 1)),  // hint tag
        fg(rgb(2, 2, 2)),  // info tag
        fg(rgb(3, 3, 3)),  // warning tag
        fg(rgb(4, 4, 4)),  // error tag
    ];
    let diagnostics = vec![
        Diagnostic { start: 1, end: 5, severity: Severity::Warning },
        Diagnostic { start: 1, end: 5, severity: Severity::Error },
    ];
    let input = Input {
        viewport: Viewport { anchor: 0, rows: 1, columns: 80 },
        is_focused: true,
    };
    let tags = OverlayTags { selection: 0, hint: 1, info: 2, warning: 3, error: 4 };
    let out = render_document(
        &b,
        &theme,
        &input,
        &Vec::new(),
        &Vec::new(),
        0,
        &diagnostics,
        &Vec::new(),
        tags,
        rgb(9, 9, 9),
        0,
    );
    let mut off = 0usize;
    for r in &out.runs {
        if off <= 3 && 3 < off + r.len {
            assert_eq!(r.color, rgb(4, 4, 4));
        }
        off += r.len;
    }
    assert_eq!(off, 9);
}
