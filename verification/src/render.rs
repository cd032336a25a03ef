//! The viewport painter's pure core: computes the visible rows (with
//! soft-wrap continuations), places the cursor, and drives the sources,
//! compositor, resolver, run builder and gutter decorator over one frame's
//! borrowed inputs.

use vstd::prelude::*;

use crate::buffer::{
    count_nl, lemma_byte_len_mono, lemma_len_bounds, lemma_line_start_unique, lemma_take_step,
    line_of, line_start_pin, TextBuffer,
};
use crate::compose::{merge_all, overlay_stacks, views_of, all_wf};
use crate::events::{stack_at, wf_events, HighlightEvent};
use crate::gutter::{cell_ok, decorate, GutterCell, GutterKind, LinePos};
use crate::resolve::{resolve_stack, style_spans};
use crate::runs::{build_runs, run_at, run_shows, styled_at, total_len, TextRun};
use crate::sources::{
    diag_covers, diagnostic_events, diags_sorted, sel_covers, sel_sorted, selection_events,
    Diagnostic, SelectionRange, Severity,
};
use crate::style::{empty_style, spec_patch, Color, Style, Theme};

verus! {

/// The window the host currently shows: the anchor character offset and
/// the viewport's size in rows and columns.
#[derive(Clone, Copy, Debug, PartialEq, Eq, Structural)]
pub struct Viewport {
    pub anchor: usize,
    pub rows: usize,
    pub columns: usize,
}

/// One frame's input snapshot from the host: the viewport and whether the
/// view is focused.
#[derive(Clone, Copy, Debug, PartialEq, Eq, Structural)]
pub struct Input {
    pub viewport: Viewport,
    pub is_focused: bool,
}

/// `e` is where line `d`'s content ends, excluding its line break.
pub open spec fn line_end_pin(s: Seq<char>, d: int, e: int) -> bool {
    exists|c: int|
        #[trigger] line_start_pin(s, d + 1, c) && e == (if d < count_nl(s) {
            c - 1
        } else {
            c
        })
}

/// A line's content end is one offset.
pub proof fn lemma_line_end_unique(s: Seq<char>, d: int, e1: int, e2: int)
    requires
        line_end_pin(s, d, e1),
        line_end_pin(s, d, e2),
    ensures
        e1 == e2,
{
    let c1 = choose|c: int|
        #[trigger] line_start_pin(s, d + 1, c) && e1 == (if d < count_nl(s) {
            c - 1
        } else {
            c
        });
    let c2 = choose|c: int|
        #[trigger] line_start_pin(s, d + 1, c) && e2 == (if d < count_nl(s) {
            c - 1
        } else {
            c
        });
    lemma_line_start_unique(s, d + 1, c1, c2);
}

/// How one visible row follows the one above it: either the next soft-wrap
/// segment of the same document line — exactly when content remains past
/// the previous segment — or the start of the next document line.
pub open spec fn row_follows(s: Seq<char>, columns: int, prev: LinePos, cur: LinePos) -> bool {
    &&& (cur.first_visual_line <==> cur.doc_line != prev.doc_line)
    &&& (cur.doc_line == prev.doc_line || cur.doc_line == prev.doc_line + 1)
    &&& (cur.doc_line == prev.doc_line ==> cur.start_char_idx == prev.start_char_idx + columns)
    &&& (cur.doc_line == prev.doc_line + 1 ==> line_start_pin(
        s,
        cur.doc_line as int,
        cur.start_char_idx as int,
    ))
    &&& (cur.doc_line == prev.doc_line <==> exists|e: int|
        #[trigger] line_end_pin(s, prev.doc_line as int, e) && prev.start_char_idx + columns < e)
}

/// The last segment of the last line is on show: the buffer has nothing
/// below this row.
pub open spec fn row_is_final(s: Seq<char>, columns: int, last: LinePos) -> bool {
    &&& last.doc_line == count_nl(s)
    &&& forall|e: int|
        #[trigger] line_end_pin(s, last.doc_line as int, e) ==> last.start_char_idx + columns >= e
}

/// Compute the visible rows for one frame: one `LinePos` per viewport row,
/// starting at the line holding the (clamped) anchor, walking document
/// lines in order and emitting one continuation row per extra soft-wrap
/// segment of `columns` characters, until the viewport or the buffer runs
/// out.
#[verifier::loop_isolation(false)]
pub fn visible_line_positions(buffer: &TextBuffer, anchor: usize, rows: usize, columns: usize) -> (out: Vec<
    LinePos,
>)
    requires
        1 <= rows <= 65535,
        columns >= 1,
    ensures
        1 <= out@.len() <= rows,
        forall|i: int| 0 <= i < out@.len() ==> (#[trigger] out@[i]).visual_line == i as u16,
        forall|i: int| 0 <= i < out@.len() ==> (#[trigger] out@[i]).doc_line <= count_nl(
            buffer.chars(),
        ),
        out@[0].doc_line == line_of(
            buffer.chars(),
            if anchor <= buffer.chars().len() {
                anchor as int
            } else {
                buffer.chars().len() as int
            },
        ),
        out@[0].first_visual_line,
        line_start_pin(buffer.chars(), out@[0].doc_line as int, out@[0].start_char_idx as int),
        forall|i: int|
            0 < i < out@.len() ==> row_follows(
                buffer.chars(),
                columns as int,
                out@[i - 1],
                #[trigger] out@[i],
            ),
        out@.len() < rows ==> row_is_final(
            buffer.chars(),
            columns as int,
            out@[out@.len() - 1],
        ),
{
    let ghost s = buffer.chars();
    let len = buffer.len_chars();
    let clamped = if anchor <= len {
        anchor
    } else {
        len
    };
    proof {
        crate::buffer::lemma_len_bounds(s);
        crate::buffer::lemma_byte_len_mono(s, clamped as int, len as int);
        assert(s.take(len as int) =~= s);
    }
    let total_nl = buffer.len_lines() - 1;
    let mut d = buffer.char_to_line(clamped);
    let mut seg = buffer.line_to_char(d);
    let mut first = true;
    let mut done = false;
    let mut out: Vec<LinePos> = Vec::new();
    let mut v: usize = 0;
    while v < rows && !done
        invariant
            v == out@.len(),
            v <= rows,
            d <= total_nl,
            total_nl == count_nl(s),
            forall|i: int| 0 <= i < out@.len() ==> (#[trigger] out@[i]).visual_line == i as u16,
            forall|i: int| 0 <= i < out@.len() ==> (#[trigger] out@[i]).doc_line <= count_nl(s),
            forall|i: int|
                0 < i < out@.len() ==> row_follows(s, columns as int, out@[i - 1], #[trigger] out@[i]),
            v > 0 ==> out@[0].doc_line == line_of(s, if anchor <= s.len() {
                anchor as int
            } else {
                s.len() as int
            }) && out@[0].first_visual_line && line_start_pin(
                s,
                out@[0].doc_line as int,
                out@[0].start_char_idx as int,
            ),
            !done && v == 0 ==> first && d == line_of(s, clamped as int) && line_start_pin(
                s,
                d as int,
                seg as int,
            ),
            !done && v > 0 && first ==> d == out@[v - 1].doc_line + 1 && line_start_pin(
                s,
                d as int,
                seg as int,
            ) && !(exists|e: int|
                #[trigger] line_end_pin(s, out@[v - 1].doc_line as int, e) && out@[v
                    - 1].start_char_idx + columns < e),
            !done && v > 0 && !first ==> d == out@[v - 1].doc_line && seg == out@[v
                - 1].start_char_idx + columns && (exists|e: int|
                #[trigger] line_end_pin(s, d as int, e) && out@[v - 1].start_char_idx + columns
                    < e),
            done ==> v > 0 && row_is_final(s, columns as int, out@[v - 1]),
        decreases rows - v,
    {
        let nls = buffer.line_to_char(d + 1);
        let line_end = if d < total_nl {
            nls - 1
        } else {
            nls
        };
        proof {
            if d < total_nl {
                assert(nls > 0);
            }
            assert(line_end_pin(s, d as int, line_end as int)) by {
                assert(line_start_pin(s, d + 1, nls as int));
            }
        }
        let entry = LinePos {
            first_visual_line: first,
            doc_line: d,
            visual_line: v as u16,
            start_char_idx: seg,
        };
        let ghost old_out = out@;
        out.push(entry);
        proof {
            assert(forall|i: int| 0 <= i < old_out.len() ==> #[trigger] out@[i] == old_out[i]);
            assert(out@[v as int] == entry);
            if v > 0 {
                assert(row_follows(s, columns as int, out@[v - 1], out@[v as int]));
            }
        }
        if line_end > seg && line_end - seg > columns {
            proof {
                assert(seg + columns < line_end);
            }
            seg = seg + columns;
            first = false;
        } else if d < total_nl {
            proof {
                assert forall|e: int|
                    #[trigger] line_end_pin(s, d as int, e) && entry.start_char_idx + columns
                        < e implies false by {
                    lemma_line_end_unique(s, d as int, e, line_end as int);
                }
            }
            d = d + 1;
            seg = buffer.line_to_char(d);
            first = true;
        } else {
            proof {
                assert forall|e: int|
                    #[trigger] line_end_pin(s, d as int, e) implies entry.start_char_idx + columns
                        >= e by {
                    lemma_line_end_unique(s, d as int, e, line_end as int);
                }
            }
            done = true;
        }
        v += 1;
    }
    out
}


/// The cursor character offset, clamped into the buffer.
pub open spec fn cursor_clamped(buffer: TextBuffer, cursor: int) -> int {
    if cursor <= buffer.chars().len() {
        cursor
    } else {
        buffer.chars().len() as int
    }
}

/// The line the (clamped) cursor sits on.
pub open spec fn cursor_line_spec(buffer: TextBuffer, cursor: int) -> int {
    line_of(buffer.chars(), cursor_clamped(buffer, cursor))
}

/// The cursor's viewport row: its line, less the first visible line.
pub open spec fn cursor_row_spec(buffer: TextBuffer, cursor: int, anchor: int) -> int {
    cursor_line_spec(buffer, cursor) - cursor_line_spec(buffer, anchor)
}

/// Whether the cursor's line lies within the viewport's visible lines.
pub open spec fn cursor_visible(buffer: TextBuffer, cursor: int, anchor: int, rows: int) -> bool {
    let s = buffer.chars();
    let cl = cursor_line_spec(buffer, cursor);
    let row0 = cursor_line_spec(buffer, anchor);
    let last = count_nl(s);
    let endl: int = if row0 + rows - 1 < last {
        row0 + rows - 1
    } else {
        last
    };
    row0 <= cl <= endl
}

/// Where the cursor glyph lands in the viewport, if its character is on a
/// visible line: the row offset from the viewport top and the column
/// offset within its line.
#[verifier::loop_isolation(false)]
#[verifier::rlimit(40)]
pub fn cursor_position(buffer: &TextBuffer, cursor: usize, anchor: usize, rows: usize) -> (r:
    Option<(u16, usize)>)
    requires
        1 <= rows <= 65535,
    ensures
        r is Some <==> cursor_visible(*buffer, cursor as int, anchor as int, rows as int),
        r is Some ==> (r->0).0 == cursor_row_spec(*buffer, cursor as int, anchor as int),
        r is Some ==> exists|c: int|
            #[trigger] line_start_pin(
                buffer.chars(),
                cursor_line_spec(*buffer, cursor as int),
                c,
            ) && (r->0).1 == cursor_clamped(*buffer, cursor as int) - c,
{
    let ghost s = buffer.chars();
    let len = buffer.len_chars();
    let cc = if cursor <= len {
        cursor
    } else {
        len
    };
    let ca = if anchor <= len {
        anchor
    } else {
        len
    };
    proof {
        lemma_len_bounds(s);
        lemma_byte_len_mono(s, cc as int, len as int);
        lemma_byte_len_mono(s, ca as int, len as int);
        assert(s.take(len as int) =~= s);
    }
    let cl = buffer.char_to_line(cc);
    let row0 = buffer.char_to_line(ca);
    let last = buffer.len_lines() - 1;
    let endl = if last - row0 < rows - 1 {
        last
    } else {
        row0 + (rows - 1)
    };
    if row0 <= cl && cl <= endl {
        let ls = buffer.line_to_char(cl);
        proof {
            assert(cc >= ls) by {
                if cc < ls {
                    lemma_byte_len_mono(s, cc as int, ls - 1);
                    lemma_take_step(s, ls - 1);
                }
            }
            assert(line_start_pin(s, cl as int, ls as int));
            assert(cl - row0 < 65536);
            assert(cc as int == cursor_clamped(*buffer, cursor as int));
            assert(cl as int == cursor_line_spec(*buffer, cursor as int));
            assert(line_start_pin(s, cursor_line_spec(*buffer, cursor as int), ls as int));
        }
        Some(((cl - row0) as u16, cc - ls))
    } else {
        None
    }
}

/// The highlight tags the overlay producers use: the selection tag and one
/// tag per diagnostic severity.
#[derive(Clone, Copy, Debug, PartialEq, Eq, Structural)]
pub struct OverlayTags {
    pub selection: u32,
    pub hint: u32,
    pub info: u32,
    pub warning: u32,
    pub error: u32,
}

/// The stack of overlay tags in force at position `p`: the selection tag
/// where a focused selection range sits, then one severity tag per
/// diagnostic bucket that covers `p`, rising severity last — so the worst
/// severity wins every field its style sets.
pub open spec fn overlay_stack_spec(
    ranges: Seq<SelectionRange>,
    focused: bool,
    tags: OverlayTags,
    diags: Seq<Diagnostic>,
    ws: int,
    we: int,
    p: int,
) -> Seq<u32> {
    (if focused && sel_covers(ranges, p) {
        seq![tags.selection]
    } else {
        Seq::<u32>::empty()
    }) + (if diag_covers(diags, Severity::Hint, ws, we, p) {
        seq![tags.hint]
    } else {
        Seq::<u32>::empty()
    }) + (if diag_covers(diags, Severity::Info, ws, we, p) {
        seq![tags.info]
    } else {
        Seq::<u32>::empty()
    }) + (if diag_covers(diags, Severity::Warning, ws, we, p) {
        seq![tags.warning]
    } else {
        Seq::<u32>::empty()
    }) + (if diag_covers(diags, Severity::Error, ws, we, p) {
        seq![tags.error]
    } else {
        Seq::<u32>::empty()
    })
}

/// The style one frame shows at position `p`: the default patched with the
/// theme fold over the syntax stream's stack, patched with the theme fold
/// over the overlay stack.
pub open spec fn final_style_at(
    theme: Theme,
    syntax: Seq<HighlightEvent>,
    ranges: Seq<SelectionRange>,
    focused: bool,
    tags: OverlayTags,
    diags: Seq<Diagnostic>,
    ws: int,
    we: int,
    p: int,
) -> Style {
    spec_patch(
        spec_patch(empty_style(), resolve_stack(theme, empty_style(), stack_at(syntax, p))),
        resolve_stack(
            theme,
            empty_style(),
            overlay_stack_spec(ranges, focused, tags, diags, ws, we, p),
        ),
    )
}

/// The cursor line of each selection range, for the gutter.
pub open spec fn cursor_lines_spec(s: Seq<char>, ranges: Seq<SelectionRange>) -> Seq<usize> {
    Seq::new(
        ranges.len(),
        |i: int|
            line_of(
                s,
                if ranges[i].head <= s.len() {
                    ranges[i].head as int
                } else {
                    s.len() as int
                },
            ) as usize,
    )
}

/// The line and severity of each diagnostic, for the gutter.
pub open spec fn diag_lines_spec(s: Seq<char>, diags: Seq<Diagnostic>) -> Seq<(usize, Severity)> {
    Seq::new(
        diags.len(),
        |i: int|
            (
                line_of(
                    s,
                    if diags[i].start <= s.len() {
                        diags[i].start as int
                    } else {
                        s.len() as int
                    },
                ) as usize,
                diags[i].severity,
            ),
    )
}

/// Everything one frame paints: the visible character range, the shaped
/// text runs for it, the visible rows, the gutter cells for each row, and
/// the cursor position, if visible.
pub struct RenderOutput {
    pub start_char: usize,
    pub end_char: usize,
    pub runs: Vec<TextRun>,
    pub lines: Vec<LinePos>,
    pub gutter: Vec<Vec<GutterCell>>,
    pub cursor: Option<(u16, usize)>,
}

/// Render one frame: compute the visible range, derive the overlay
/// streams from the selection and the diagnostics, fold them together,
/// resolve both the syntax stream and the overlay stream against the
/// theme, partition the visible characters into runs, lay out the visible
/// rows with their gutter cells, and place the cursor. Every output is
/// pinned to the borrowed inputs; the style claims need only a legal
/// syntax stream, as the resolver discards malformed events.
#[verifier::loop_isolation(false)]
#[verifier::rlimit(100)]
pub fn render_document(
    buffer: &TextBuffer,
    theme: &Theme,
    input: &Input,
    syntax_events: &Vec<HighlightEvent>,
    selection: &Vec<SelectionRange>,
    primary: usize,
    diagnostics: &Vec<Diagnostic>,
    gutters: &Vec<GutterKind>,
    tags: OverlayTags,
    default_fg: Color,
    font: u32,
) -> (out: RenderOutput)
    requires
        1 <= input.viewport.rows <= 65535,
        input.viewport.columns >= 1,
        gutters@.len() <= 1000,
        sel_sorted(selection@),
        diags_sorted(diagnostics@, Severity::Hint),
        diags_sorted(diagnostics@, Severity::Info),
        diags_sorted(diagnostics@, Severity::Warning),
        diags_sorted(diagnostics@, Severity::Error),
    ensures
        ({
            let s = buffer.chars();
            let row0 = cursor_line_spec(*buffer, input.viewport.anchor as int);
            let last = count_nl(s);
            let endl: int = if row0 + input.viewport.rows - 1 < last {
                row0 + input.viewport.rows - 1
            } else {
                last
            };
            &&& line_start_pin(s, row0, out.start_char as int)
            &&& line_start_pin(s, endl + 1, out.end_char as int)
        }),
        out.start_char <= out.end_char <= buffer.chars().len(),
        total_len(out.runs@) == out.end_char - out.start_char,
        forall|i: int| 0 <= i < out.runs@.len() ==> (#[trigger] out.runs@[i]).len > 0,
        wf_events(syntax_events@) ==> forall|off: int|
            0 <= off < out.end_char - out.start_char ==> run_shows(
                run_at(out.runs@, off),
                final_style_at(
                    *theme,
                    syntax_events@,
                    selection@,
                    input.is_focused,
                    tags,
                    diagnostics@,
                    out.start_char as int,
                    out.end_char as int,
                    out.start_char + off,
                ),
                default_fg,
                font,
            ),
        1 <= out.lines@.len() <= input.viewport.rows,
        forall|i: int|
            0 <= i < out.lines@.len() ==> (#[trigger] out.lines@[i]).visual_line == i as u16,
        out.lines@[0].doc_line == cursor_line_spec(*buffer, input.viewport.anchor as int)
            && out.lines@[0].first_visual_line,
        line_start_pin(
            buffer.chars(),
            out.lines@[0].doc_line as int,
            out.lines@[0].start_char_idx as int,
        ),
        forall|i: int|
            0 < i < out.lines@.len() ==> row_follows(
                buffer.chars(),
                input.viewport.columns as int,
                out.lines@[i - 1],
                #[trigger] out.lines@[i],
            ),
        out.lines@.len() < input.viewport.rows ==> row_is_final(
            buffer.chars(),
            input.viewport.columns as int,
            out.lines@[out.lines@.len() - 1],
        ),
        out.gutter@.len() == out.lines@.len(),
        forall|i: int|
            0 <= i < out.lines@.len() ==> (#[trigger] out.gutter@[i])@.len() == gutters@.len(),
        forall|i: int, j: int|
            0 <= i < out.lines@.len() && 0 <= j < gutters@.len() ==> #[trigger] cell_ok(
                out.gutter@[i]@[j],
                out.lines@[i],
                gutters@[j],
                gutters@,
                j,
                cursor_lines_spec(buffer.chars(), selection@),
                diag_lines_spec(buffer.chars(), diagnostics@),
                *theme,
                (count_nl(buffer.chars()) + 1) as nat,
            ),
        primary < selection@.len() ==> {
            let head = selection@[primary as int].head as int;
            &&& (out.cursor is Some <==> cursor_visible(
                *buffer,
                head,
                input.viewport.anchor as int,
                input.viewport.rows as int,
            ))
            &&& (out.cursor is Some ==> (out.cursor->0).0 == cursor_row_spec(
                *buffer,
                head,
                input.viewport.anchor as int,
            ))
        },
        primary >= selection@.len() ==> out.cursor is None,
{
    let ghost s = buffer.chars();
    let vp = input.viewport;
    let (start_char, end_char) = buffer.visible_char_range(vp.anchor, vp.rows);
    // overlay streams, lowest priority first
    let sel_ev = selection_events(selection, input.is_focused, tags.selection);
    let hint_ev = diagnostic_events(diagnostics, Severity::Hint, tags.hint, start_char, end_char);
    let info_ev = diagnostic_events(diagnostics, Severity::Info, tags.info, start_char, end_char);
    let warn_ev = diagnostic_events(
        diagnostics,
        Severity::Warning,
        tags.warning,
        start_char,
        end_char,
    );
    let err_ev = diagnostic_events(
        diagnostics,
        Severity::Error,
        tags.error,
        start_char,
        end_char,
    );
    let ghost sel_v = sel_ev@;
    let ghost hint_v = hint_ev@;
    let ghost info_v = info_ev@;
    let ghost warn_v = warn_ev@;
    let ghost err_v = err_ev@;
    let mut overlays: Vec<Vec<HighlightEvent>> = Vec::new();
    overlays.push(hint_ev);
    overlays.push(info_ev);
    overlays.push(warn_ev);
    overlays.push(err_ev);
    proof {
        assert(overlays@.len() == 4);
        assert(overlays@[0]@ == hint_v);
        assert(overlays@[1]@ == info_v);
        assert(overlays@[2]@ == warn_v);
        assert(overlays@[3]@ == err_v);
    }
    let merged = merge_all(&sel_ev, &overlays);
    let ghost ws = start_char as int;
    let ghost we = end_char as int;
    proof {
        let vs = views_of(overlays@);
        assert(vs.len() == 4);
        assert(vs[0] == hint_v && vs[1] == info_v && vs[2] == warn_v && vs[3] == err_v);
        assert(all_wf(vs)) by {
            assert(forall|i: int| 0 <= i < 4 ==> #[trigger] vs[i] == overlays@[i]@);
        }
        assert forall|p: int|
            stack_at(merged@, p) == overlay_stack_spec(
                selection@,
                input.is_focused,
                tags,
                diagnostics@,
                ws,
                we,
                p,
            ) by {
            let vs3 = vs.drop_last();
            let vs2 = vs3.drop_last();
            let vs1 = vs2.drop_last();
            let vs0 = vs1.drop_last();
            assert(vs3.len() == 3 && vs3[0] == vs[0] && vs3[1] == vs[1] && vs3[2] == vs[2]);
            assert(vs2.len() == 2 && vs2[0] == vs[0] && vs2[1] == vs[1]);
            assert(vs1.len() == 1 && vs1[0] == vs[0]);
            assert(vs0.len() == 0);
            assert(overlay_stacks(vs0, p) == Seq::<u32>::empty());
            assert(overlay_stacks(vs1, p) == overlay_stacks(vs0, p) + stack_at(vs[0], p));
            assert(overlay_stacks(vs2, p) == overlay_stacks(vs1, p) + stack_at(vs[1], p));
            assert(overlay_stacks(vs3, p) == overlay_stacks(vs2, p) + stack_at(vs[2], p));
            assert(overlay_stacks(vs, p) == overlay_stacks(vs3, p) + stack_at(vs[3], p));
            let sh = stack_at(sel_v, p);
            let h = stack_at(hint_v, p);
            let i2 = stack_at(info_v, p);
            let w = stack_at(warn_v, p);
            let e = stack_at(err_v, p);
            assert(stack_at(merged@, p) == sh + (((Seq::<u32>::empty() + h) + i2) + w) + e);
            assert(sh + (((Seq::<u32>::empty() + h) + i2) + w) + e =~= (((sh + h) + i2) + w) + e);
            assert(overlay_stack_spec(
                selection@,
                input.is_focused,
                tags,
                diagnostics@,
                ws,
                we,
                p,
            ) == (((sh + h) + i2) + w) + e) by {
                assert(sh == (if input.is_focused && sel_covers(selection@, p) {
                    seq![tags.selection]
                } else {
                    Seq::<u32>::empty()
                }));
                assert(h == (if diag_covers(diagnostics@, Severity::Hint, ws, we, p) {
                    seq![tags.hint]
                } else {
                    Seq::<u32>::empty()
                }));
                assert(i2 == (if diag_covers(diagnostics@, Severity::Info, ws, we, p) {
                    seq![tags.info]
                } else {
                    Seq::<u32>::empty()
                }));
                assert(w == (if diag_covers(diagnostics@, Severity::Warning, ws, we, p) {
                    seq![tags.warning]
                } else {
                    Seq::<u32>::empty()
                }));
                assert(e == (if diag_covers(diagnostics@, Severity::Error, ws, we, p) {
                    seq![tags.error]
                } else {
                    Seq::<u32>::empty()
                }));
            }
        }
    }
    let base_style = Style::empty();
    let syn_spans = style_spans(syntax_events, theme, base_style);
    let ovl_spans = style_spans(&merged, theme, base_style);
    let runs = build_runs(&syn_spans, &ovl_spans, start_char, end_char, default_fg, font);
    proof {
        if wf_events(syntax_events@) {
            assert forall|off: int|
                0 <= off < end_char - start_char implies run_shows(
                run_at(runs@, off),
                final_style_at(
                    *theme,
                    syntax_events@,
                    selection@,
                    input.is_focused,
                    tags,
                    diagnostics@,
                    ws,
                    we,
                    start_char + off,
                ),
                default_fg,
                font,
            ) by {
                let p = start_char + off;
                assert(run_shows(
                    run_at(runs@, off),
                    styled_at(syn_spans@, ovl_spans@, p),
                    default_fg,
                    font,
                ));
                assert(crate::resolve::span_style_at(syn_spans@, p, base_style) == resolve_stack(
                    *theme,
                    base_style,
                    stack_at(syntax_events@, p),
                ));
                assert(crate::resolve::span_style_at(ovl_spans@, p, base_style) == resolve_stack(
                    *theme,
                    base_style,
                    stack_at(merged@, p),
                ));
                assert(stack_at(merged@, p) == overlay_stack_spec(
                    selection@,
                    input.is_focused,
                    tags,
                    diagnostics@,
                    ws,
                    we,
                    p,
                ));
            }
        }
    }
    let lines = visible_line_positions(buffer, vp.anchor, vp.rows, vp.columns);
    let len = buffer.len_chars();
    let mut cursor_lines: Vec<usize> = Vec::new();
    let mut k: usize = 0;
    while k < selection.len()
        invariant
            k <= selection@.len(),
            cursor_lines@.len() == k as int,
            forall|m: int|
                0 <= m < k ==> cursor_lines@[m] == cursor_lines_spec(s, selection@)[m],
            len == s.len(),
        decreases selection@.len() - k,
    {
        let head = selection[k].head;
        let hc = if head <= len {
            head
        } else {
            len
        };
        proof {
            lemma_len_bounds(s);
            lemma_byte_len_mono(s, hc as int, len as int);
            assert(s.take(len as int) =~= s);
        }
        let cl = buffer.char_to_line(hc);
        cursor_lines.push(cl);
        k += 1;
    }
    proof {
        assert(cursor_lines@ =~= cursor_lines_spec(s, selection@));
    }
    let mut diag_lines: Vec<(usize, Severity)> = Vec::new();
    let mut k2: usize = 0;
    while k2 < diagnostics.len()
        invariant
            k2 <= diagnostics@.len(),
            diag_lines@.len() == k2 as int,
            forall|m: int| 0 <= m < k2 ==> diag_lines@[m] == diag_lines_spec(s, diagnostics@)[m],
            len == s.len(),
        decreases diagnostics@.len() - k2,
    {
        let d = diagnostics[k2];
        let dc = if d.start <= len {
            d.start
        } else {
            len
        };
        proof {
            lemma_len_bounds(s);
            lemma_byte_len_mono(s, dc as int, len as int);
            assert(s.take(len as int) =~= s);
        }
        let dl = buffer.char_to_line(dc);
        diag_lines.push((dl, d.severity));
        k2 += 1;
    }
    proof {
        assert(diag_lines@ =~= diag_lines_spec(s, diagnostics@));
    }
    let total_lines = buffer.len_lines();
    proof {
        lemma_len_bounds(s);
        assert forall|i: int| 0 <= i < lines@.len() implies (#[trigger] lines@[i]).doc_line
            < usize::MAX by {
            crate::buffer::lemma_len_bounds(s);
        }
    }
    let gutter = decorate(&lines, gutters, &cursor_lines, &diag_lines, theme, total_lines);
    let cursor = if primary < selection.len() {
        cursor_position(buffer, selection[primary].head, vp.anchor, vp.rows)
    } else {
        None
    };
    RenderOutput { start_char, end_char, runs, lines, gutter, cursor }
}

} // verus!
