//! Compositor, resolver and run-builder behaviour on concrete streams.

use docpaint::compose::{flatten, merge};
use docpaint::events::HighlightEvent;
use docpaint::resolve::{style_spans, StyleSpan};
use docpaint::runs::{build_runs, TextRun};
use docpaint::style::{Color, Style, Theme, UnderlineKind};

fn rgb(r: u8, g: u8, b: u8) -> Color {
    Color { r, g, b }
}

fn fg(c: Color) -> Style {
    let mut s = empty();
    s.fg = Some(c);
    s
}

fn empty() -> Style {
    Style {
        fg: None,
        bg: None,
        underline_color: None,
        underline_kind: None,
        add_modifier: 0,
        sub_modifier: 0,
    }
}

fn theme_with(highlights: Vec<Style>) -> Theme {
    Theme {
        highlights,
        gutter: empty(),
        gutter_selected: empty(),
        gutter_virtual: empty(),
        gutter_selected_virtual: empty(),
        hint: empty(),
        info: empty(),
        warning: empty(),
        error: empty(),
    }
}

fn start(tag: u32) -> HighlightEvent {
    HighlightEvent::Start { tag }
}

fn span(s: usize, e: usize) -> HighlightEvent {
    HighlightEvent::Span { start: s, end: e }
}

fn end() -> HighlightEvent {
    HighlightEvent::End
}

/// The resolved style at one position, from a resolved span list.
fn style_at(spans: &[StyleSpan], p: usize, base: Style) -> Style {
    for sp in spans {
        if sp.start <= p && p < sp.end {
            return sp.style;
        }
    }
    base
}

#[test]
fn resolver_output_is_sorted_and_non_overlapping() {
    let events = vec![
        start(1),
        span(0, 4),
        start(2),
        span(4, 6),
        end(),
        span(6, 9),
        end(),
        span(12, 15),
    ];
    let theme = theme_with(vec![empty(), fg(rgb(1, 2, 3)), fg(rgb(9, 9, 9))]);
    let spans = style_spans(&events, &theme, empty());
    assert!(spans.len() >= 2);
    for w in spans.windows(2) {
        assert!(w[0].end <= w[1].start);
    }
    for sp in &spans {
        assert!(sp.start < sp.end);
    }
}

#[test]
fn resolver_discards_malformed_events() {
    // an unmatched End, a backwards span, an empty span and an
    // overlapping span must all be dropped, never propagated
    let events = vec![
        end(),
        start(1),
        span(5, 5),
        span(4, 2),
        span(2, 6),
        span(3, 8),
        span(6, 9),
        end(),
        end(),
    ];
    let theme = theme_with(vec![empty(), fg(rgb(7, 7, 7))]);
    let spans = style_spans(&events, &theme, empty());
    for w in spans.windows(2) {
        assert!(w[0].end <= w[1].start);
    }
    for sp in &spans {
        assert!(sp.start < sp.end);
    }
    // the two legal spans survive
    assert_eq!(spans.len(), 2);
    assert_eq!((spans[0].start, spans[0].end), (2, 6));
    assert_eq!((spans[1].start, spans[1].end), (6, 9));
}

#[test]
fn resolver_folds_stack_bottom_to_top() {
    // tag 1 sets the foreground, tag 2 (pushed later) overrides it and
    // adds an underline
    let mut ul = fg(rgb(200, 0, 0));
    ul.underline_color = Some(rgb(200, 0, 0));
    ul.underline_kind = Some(UnderlineKind::Curl);
    let theme = theme_with(vec![empty(), fg(rgb(0, 100, 0)), ul]);
    let events = vec![start(1), span(0, 2), start(2), span(2, 4), end(), span(4, 6), end()];
    let spans = style_spans(&events, &theme, empty());
    assert_eq!(style_at(&spans, 0, empty()).fg, Some(rgb(0, 100, 0)));
    assert_eq!(style_at(&spans, 2, empty()).fg, Some(rgb(200, 0, 0)));
    assert_eq!(
        style_at(&spans, 3, empty()).underline_color,
        Some(rgb(200, 0, 0))
    );
    assert_eq!(style_at(&spans, 4, empty()).fg, Some(rgb(0, 100, 0)));
    assert_eq!(style_at(&spans, 5, empty()).underline_color, None);
}

#[test]
fn merge_keeps_base_and_overlay_stacks() {
    let base = vec![start(1), span(0, 10), end()];
    let overlay = vec![start(2), span(3, 6), end()];
    let merged = merge(&base, &overlay);
    let mut ovl = empty();
    ovl.bg = Some(rgb(50, 50, 50));
    let theme = theme_with(vec![empty(), fg(rgb(1, 1, 1)), ovl]);
    let spans = style_spans(&merged, &theme, empty());
    // outside the overlay: base foreground only
    let outside = style_at(&spans, 1, empty());
    assert_eq!(outside.fg, Some(rgb(1, 1, 1)));
    assert_eq!(outside.bg, None);
    // inside the overlay: base foreground, overlay background on top
    let inside = style_at(&spans, 4, empty());
    assert_eq!(inside.fg, Some(rgb(1, 1, 1)));
    assert_eq!(inside.bg, Some(rgb(50, 50, 50)));
}

#[test]
fn merge_same_position_overlay_wins() {
    // both streams start a span at the same position: the overlay, merged
    // later, is the more specific one and wins the contested field
    let base = vec![start(1), span(2, 8), end()];
    let overlay = vec![start(2), span(2, 8), end()];
    let merged = merge(&base, &overlay);
    let theme = theme_with(vec![empty(), fg(rgb(10, 0, 0)), fg(rgb(0, 10, 0))]);
    let spans = style_spans(&merged, &theme, empty());
    assert_eq!(style_at(&spans, 5, empty()).fg, Some(rgb(0, 10, 0)));
}

#[test]
fn merge_is_associative_on_resolved_styles() {
    let a = vec![start(1), span(0, 10), end()];
    let b = vec![start(2), span(2, 6), end()];
    let c = vec![start(3), span(4, 9), end()];
    let ab_c = merge(&merge(&a, &b), &c);
    let a_bc = merge(&a, &merge(&b, &c));
    let mut s3 = fg(rgb(3, 3, 3));
    s3.underline_color = Some(rgb(8, 8, 8));
    let theme = theme_with(vec![empty(), fg(rgb(1, 1, 1)), fg(rgb(2, 2, 2)), s3]);
    let left = style_spans(&ab_c, &theme, empty());
    let right = style_spans(&a_bc, &theme, empty());
    for p in 0..12 {
        assert_eq!(style_at(&left, p, empty()), style_at(&right, p, empty()));
    }
}

#[test]
fn merge_with_empty_overlay_is_identity() {
    let a = vec![start(1), span(0, 4), start(2), span(4, 7), end(), span(7, 9), end()];
    let none: Vec<HighlightEvent> = Vec::new();
    let merged = merge(&a, &none);
    let theme = theme_with(vec![empty(), fg(rgb(1, 1, 1)), fg(rgb(2, 2, 2))]);
    let before = style_spans(&a, &theme, empty());
    let after = style_spans(&merged, &theme, empty());
    for p in 0..11 {
        assert_eq!(style_at(&before, p, empty()), style_at(&after, p, empty()));
    }
}

#[test]
fn flatten_carries_full_stacks() {
    let events = vec![start(4), start(7), span(1, 3), end(), span(3, 5), end()];
    let flat = flatten(&events);
    assert_eq!(flat.len(), 2);
    assert_eq!(flat[0].tags, vec![4, 7]);
    assert_eq!((flat[0].start, flat[0].end), (1, 3));
    assert_eq!(flat[1].tags, vec![4]);
    assert_eq!((flat[1].start, flat[1].end), (3, 5));
}

#[test]
fn runs_cover_range_exactly() {
    let theme = theme_with(vec![empty(), fg(rgb(1, 1, 1)), fg(rgb(2, 2, 2))]);
    let syn = style_spans(&vec![start(1), span(2, 5), end()], &theme, empty());
    let ovl = style_spans(&vec![start(2), span(4, 9), end()], &theme, empty());
    let runs = build_runs(&syn, &ovl, 0, 17, rgb(255, 255, 255), 0);
    let total: usize = runs.iter().map(|r| r.len).sum();
    assert_eq!(total, 17);
    for r in &runs {
        assert!(r.len > 0);
    }
}

#[test]
fn runs_cover_empty_range() {
    let syn: Vec<StyleSpan> = Vec::new();
    let ovl: Vec<StyleSpan> = Vec::new();
    let runs = build_runs(&syn, &ovl, 5, 5, rgb(0, 0, 0), 0);
    let total: usize = runs.iter().map(|r| r.len).sum();
    assert_eq!(total, 0);
}

/// The run in force at one character offset.
fn run_at(runs: &[TextRun], mut off: usize) -> TextRun {
    for r in runs {
        if off < r.len {
            return *r;
        }
        off -= r.len;
    }
    panic!("offset past the runs");
}

#[test]
fn scenario_one_line_of_code() {
    // buffer "fn main() {}\n": the keyword and the identifier take their
    // own tags, everything else the default style
    let text: Vec<char> = "fn main() {}\n".chars().collect();
    let len = text.len();
    assert_eq!(len, 13);
    let events = vec![start(1), span(0, 2), end(), start(2), span(3, 7), end()];
    let kw = fg(rgb(200, 50, 50));
    let ident = fg(rgb(50, 50, 200));
    let theme = theme_with(vec![empty(), kw, ident]);
    let default_fg = rgb(220, 220, 220);
    let syn = style_spans(&events, &theme, empty());
    let none: Vec<StyleSpan> = Vec::new();
    let runs = build_runs(&syn, &none, 0, len, default_fg, 0);
    assert_eq!(runs.len(), 4);
    assert_eq!(runs[0].len, 2);
    assert_eq!(runs[0].color, rgb(200, 50, 50));
    assert_eq!(runs[1].len, 1);
    assert_eq!(runs[1].color, default_fg);
    assert_eq!(runs[2].len, 4);
    assert_eq!(runs[2].color, rgb(50, 50, 200));
    assert_eq!(runs[3].len, 6);
    assert_eq!(runs[3].color, default_fg);
    let total: usize = runs.iter().map(|r| r.len).sum();
    assert_eq!(total, len);
}

#[test]
fn scenario_diagnostic_patches_only_its_fields() {
    // same buffer; an error diagnostic underlines "main" but must keep the
    // syntax foreground and the syntax bold flag intact
    let text: Vec<char> = "fn main() {}\n".chars().collect();
    let len = text.len();
    let events = vec![start(1), span(0, 2), end(), start(2), span(3, 7), end()];
    let mut ident = fg(rgb(50, 50, 200));
    ident.add_modifier = 1; // bold
    let mut diag = empty();
    diag.underline_color = Some(rgb(255, 0, 0));
    diag.underline_kind = Some(UnderlineKind::Curl);
    let theme = theme_with(vec![empty(), fg(rgb(200, 50, 50)), ident, diag]);
    let default_fg = rgb(220, 220, 220);
    let syn = style_spans(&events, &theme, empty());
    let overlay_events = vec![start(3), span(3, 7), end()];
    let ovl = style_spans(&overlay_events, &theme, empty());
    // patch semantics at the style level: the diagnostic sets only the
    // underline, the bold flag and foreground survive
    let merged_style = style_at(&syn, 4, empty()).patch(style_at(&ovl, 4, empty()));
    assert_eq!(merged_style.fg, Some(rgb(50, 50, 200)));
    assert_eq!(merged_style.add_modifier, 1);
    assert_eq!(merged_style.underline_color, Some(rgb(255, 0, 0)));
    // and at the run level
    let runs = build_runs(&syn, &ovl, 0, len, default_fg, 0);
    let over_main = run_at(&runs, 4);
    assert_eq!(over_main.color, rgb(50, 50, 200));
    assert_eq!(over_main.underline, Some(rgb(255, 0, 0)));
    let outside = run_at(&runs, 8);
    assert_eq!(outside.underline, None);
    let total: usize = runs.iter().map(|r| r.len).sum();
    assert_eq!(total, len);
}

#[test]
fn gap_between_spans_gets_default_style() {
    let theme = theme_with(vec![empty(), fg(rgb(9, 0, 0))]);
    let syn = style_spans(&vec![start(1), span(0, 2), end(), span(8, 10)], &theme, empty());
    let none: Vec<StyleSpan> = Vec::new();
    let default_fg = rgb(1, 2, 3);
    let runs = build_runs(&syn, &none, 0, 10, default_fg, 7);
    // positions 2..8 fall in no span: default style
    let gap = run_at(&runs, 5);
    assert_eq!(gap.color, default_fg);
    assert_eq!(gap.background, None);
    assert_eq!(gap.underline, None);
    assert_eq!(gap.font, 7);
}
