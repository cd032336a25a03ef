//! The run builder: walks a syntax span sequence and an overlay span
//! sequence in lockstep and partitions the visible character range into
//! text runs with resolved colour, background and underline, inserting
//! default-style runs in the gaps.

use vstd::prelude::*;

use crate::resolve::{
    lemma_span_style_at_first_cover, lemma_span_style_at_not_covered, span_covers, span_style_at,
    spans_sorted, StyleSpan,
};
use crate::style::{empty_style, lemma_patch_empty, spec_patch, Color, Style};

verus! {

/// One shaper-ready unit: `len` characters sharing one resolved look.
#[derive(Clone, Copy, Debug, PartialEq, Eq, Structural)]
pub struct TextRun {
    pub len: usize,
    pub font: u32,
    pub color: Color,
    pub background: Option<Color>,
    pub underline: Option<Color>,
}

/// The number of characters the run list covers.
pub open spec fn total_len(runs: Seq<TextRun>) -> int
    decreases runs.len(),
{
    if runs.len() == 0 {
        0
    } else {
        runs[0].len + total_len(runs.drop_first())
    }
}

/// The run in force at character offset `off` from the start of the list.
pub open spec fn run_at(runs: Seq<TextRun>, off: int) -> TextRun
    decreases runs.len(),
{
    if runs.len() == 0 {
        arbitrary()
    } else if off < runs[0].len {
        runs[0]
    } else {
        run_at(runs.drop_first(), off - runs[0].len)
    }
}

/// The effective style at position `p`: the empty style patched with the
/// syntax span covering `p`, if any, then with the overlay span covering
/// `p`, if any — so the overlay wins every field it sets.
pub open spec fn styled_at(syn: Seq<StyleSpan>, ovl: Seq<StyleSpan>, p: int) -> Style {
    spec_patch(
        spec_patch(empty_style(), span_style_at(syn, p, empty_style())),
        span_style_at(ovl, p, empty_style()),
    )
}

/// The foreground a style paints over the given default.
pub open spec fn fg_or(st: Style, default_fg: Color) -> Color {
    match st.fg {
        Some(c) => c,
        None => default_fg,
    }
}

/// How a run renders a resolved style.
pub open spec fn run_shows(r: TextRun, st: Style, default_fg: Color, font: u32) -> bool {
    &&& r.color == fg_or(st, default_fg)
    &&& r.background == st.bg
    &&& r.underline == st.underline_color
    &&& r.font == font
}

pub proof fn lemma_total_len_nonneg(runs: Seq<TextRun>)
    ensures
        total_len(runs) >= 0,
    decreases runs.len(),
{
    if runs.len() > 0 {
        lemma_total_len_nonneg(runs.drop_first());
    }
}

/// Appending a run extends the covered length and leaves every earlier
/// offset's run unchanged; the new offsets all map to the new run.
pub proof fn lemma_runs_push(runs: Seq<TextRun>, r: TextRun, off: int)
    ensures
        total_len(runs.push(r)) == total_len(runs) + r.len,
        0 <= off < total_len(runs) ==> run_at(runs.push(r), off) == run_at(runs, off),
        total_len(runs) <= off < total_len(runs) + r.len ==> run_at(runs.push(r), off) == r,
    decreases runs.len(),
{
    lemma_total_len_nonneg(runs);
    if runs.len() == 0 {
        assert(runs.push(r)[0] == r);
        assert(runs.push(r).drop_first() =~= Seq::<TextRun>::empty());
        assert(total_len(runs.push(r).drop_first()) == 0);
        assert(total_len(runs) == 0);
    } else {
        assert(runs.push(r)[0] == runs[0]);
        assert(runs.push(r).drop_first() =~= runs.drop_first().push(r));
        lemma_total_len_nonneg(runs.drop_first());
        lemma_runs_push(runs.drop_first(), r, off - runs[0].len);
    }
}

/// Build the run list for the visible characters `[anchor, end_char)` from
/// a resolved syntax span sequence and a resolved overlay span sequence.
/// The runs partition the range exactly — their lengths sum to
/// `end_char - anchor` and none is empty — and every character offset
/// shows the style of the spans that contain it, the overlay patched over
/// the syntax, over the default.
#[verifier::loop_isolation(false)]
#[verifier::rlimit(50)]
pub fn build_runs(
    syntax: &Vec<StyleSpan>,
    overlay: &Vec<StyleSpan>,
    anchor: usize,
    end_char: usize,
    default_fg: Color,
    font: u32,
) -> (runs: Vec<TextRun>)
    requires
        anchor <= end_char,
        spans_sorted(syntax@),
        spans_sorted(overlay@),
    ensures
        total_len(runs@) == end_char - anchor,
        forall|i: int| 0 <= i < runs@.len() ==> (#[trigger] runs@[i]).len > 0,
        forall|off: int|
            0 <= off < end_char - anchor ==> run_shows(
                run_at(runs@, off),
                styled_at(syntax@, overlay@, anchor + off),
                default_fg,
                font,
            ),
{
    let mut runs: Vec<TextRun> = Vec::new();
    let mut pos = anchor;
    let mut isyn: usize = 0;
    let mut iovl: usize = 0;
    while isyn < syntax.len() && syntax[isyn].end <= pos
        invariant
            isyn <= syntax.len(),
            forall|k: int| 0 <= k < isyn ==> (#[trigger] syntax@[k]).end <= pos,
        decreases syntax.len() - isyn,
    {
        isyn += 1;
    }
    while iovl < overlay.len() && overlay[iovl].end <= pos
        invariant
            iovl <= overlay.len(),
            forall|k: int| 0 <= k < iovl ==> (#[trigger] overlay@[k]).end <= pos,
        decreases overlay.len() - iovl,
    {
        iovl += 1;
    }
    while pos < end_char
        invariant
            anchor <= pos <= end_char,
            isyn <= syntax.len(),
            iovl <= overlay.len(),
            forall|k: int| 0 <= k < isyn ==> (#[trigger] syntax@[k]).end <= pos,
            forall|k: int| 0 <= k < iovl ==> (#[trigger] overlay@[k]).end <= pos,
            isyn < syntax.len() ==> pos < syntax@[isyn as int].end,
            iovl < overlay.len() ==> pos < overlay@[iovl as int].end,
            total_len(runs@) == pos - anchor,
            forall|i: int| 0 <= i < runs@.len() ==> (#[trigger] runs@[i]).len > 0,
            forall|off: int|
                0 <= off < pos - anchor ==> run_shows(
                    run_at(runs@, off),
                    styled_at(syntax@, overlay@, anchor + off),
                    default_fg,
                    font,
                ),
        decreases end_char - pos,
    {
        let ghost old_runs = runs@;
        let ghost old_pos = pos as int;
        let in_syn = isyn < syntax.len() && syntax[isyn].start <= pos;
        let in_ovl = iovl < overlay.len() && overlay[iovl].start <= pos;
        let mut style = Style::empty();
        if in_syn {
            style = style.patch(syntax[isyn].style);
        }
        if in_ovl {
            style = style.patch(overlay[iovl].style);
        }
        let mut q = end_char;
        if in_syn {
            if syntax[isyn].end < q {
                q = syntax[isyn].end;
            }
        } else if isyn < syntax.len() && syntax[isyn].start < q {
            q = syntax[isyn].start;
        }
        if in_ovl {
            if overlay[iovl].end < q {
                q = overlay[iovl].end;
            }
        } else if iovl < overlay.len() && overlay[iovl].start < q {
            q = overlay[iovl].start;
        }
        let color = match style.fg {
            Some(c) => c,
            None => default_fg,
        };
        let run = TextRun {
            len: q - pos,
            font,
            color,
            background: style.bg,
            underline: style.underline_color,
        };
        runs.push(run);
        proof {
            lemma_runs_push(old_runs, run, 0);
            assert(total_len(runs@) == q - anchor);
            assert forall|off: int|
                0 <= off < q - anchor implies run_shows(
                run_at(runs@, off),
                styled_at(syntax@, overlay@, anchor + off),
                default_fg,
                font,
            ) by {
                lemma_runs_push(old_runs, run, off);
                if off < old_pos - anchor {
                } else {
                    let p = anchor + off;
                    assert(old_pos <= p < q);
                    let base = empty_style();
                    let syn_part = if in_syn {
                        syntax@[isyn as int].style
                    } else {
                        base
                    };
                    if in_syn {
                        assert(forall|k: int| 0 <= k < isyn ==> !((#[trigger] syntax@[k]).start
                            <= p < syntax@[k].end));
                        assert(syntax@[isyn as int].start <= p < syntax@[isyn as int].end);
                        lemma_span_style_at_first_cover(syntax@, isyn as int, p, base);
                    } else {
                        assert forall|k: int| 0 <= k < syntax@.len() implies !((
                        #[trigger] syntax@[k]).start <= p < syntax@[k].end) by {
                            if k >= isyn {
                                if isyn < syntax.len() && k > isyn {
                                    assert(syntax@[isyn as int].end <= syntax@[k].start);
                                }
                            }
                        }
                        lemma_span_style_at_not_covered(syntax@, p, base);
                    }
                    let ovl_part = if in_ovl {
                        overlay@[iovl as int].style
                    } else {
                        base
                    };
                    if in_ovl {
                        assert(forall|k: int| 0 <= k < iovl ==> !((#[trigger] overlay@[k]).start
                            <= p < overlay@[k].end));
                        assert(overlay@[iovl as int].start <= p < overlay@[iovl as int].end);
                        lemma_span_style_at_first_cover(overlay@, iovl as int, p, base);
                    } else {
                        assert forall|k: int| 0 <= k < overlay@.len() implies !((
                        #[trigger] overlay@[k]).start <= p < overlay@[k].end) by {
                            if k >= iovl {
                                if iovl < overlay.len() && k > iovl {
                                    assert(overlay@[iovl as int].end <= overlay@[k].start);
                                }
                            }
                        }
                        lemma_span_style_at_not_covered(overlay@, p, base);
                    }
                    lemma_patch_empty(spec_patch(base, syn_part));
                    lemma_patch_empty(syn_part);
                    assert(styled_at(syntax@, overlay@, p) == spec_patch(
                        spec_patch(base, syn_part),
                        ovl_part,
                    ));
                    assert(style == spec_patch(spec_patch(base, syn_part), ovl_part));
                }
            }
        }
        pos = q;
        while isyn < syntax.len() && syntax[isyn].end <= pos
            invariant
                isyn <= syntax.len(),
                forall|k: int| 0 <= k < isyn ==> (#[trigger] syntax@[k]).end <= pos,
            decreases syntax.len() - isyn,
        {
            isyn += 1;
        }
        while iovl < overlay.len() && overlay[iovl].end <= pos
            invariant
                iovl <= overlay.len(),
                forall|k: int| 0 <= k < iovl ==> (#[trigger] overlay@[k]).end <= pos,
            decreases overlay.len() - iovl,
        {
            iovl += 1;
        }
    }
    runs
}

} // verus!
