//! The style resolver: walks one merged highlight-event stream and folds
//! the theme over the stack of active tags, producing a strictly ordered,
//! non-overlapping sequence of resolved style spans.

use vstd::prelude::*;

use crate::compose::{
    flat_at, flat_covers, flatten, lemma_flat_at_first_cover, lemma_flat_at_not_covered,
};
use crate::events::{stack_at, wf_events, HighlightEvent};
use crate::style::{spec_highlight, spec_patch, Style, Theme};

verus! {

/// A resolved, flattened span with no nesting: the effective style over
/// `[start, end)`.
#[derive(Clone, Copy, Debug, PartialEq, Eq, Structural)]
pub struct StyleSpan {
    pub style: Style,
    pub start: usize,
    pub end: usize,
}

/// Spans are non-empty, strictly increasing and non-overlapping.
pub open spec fn spans_sorted(spans: Seq<StyleSpan>) -> bool {
    &&& forall|i: int| 0 <= i < spans.len() ==> (#[trigger] spans[i]).start < spans[i].end
    &&& forall|i: int, j: int|
        0 <= i < j < spans.len() ==> (#[trigger] spans[i]).end <= (#[trigger] spans[j]).start
}

/// The style a resolved span list gives position `p`: the style of the
/// first span containing `p`, or the base style where no span applies
/// (absence of a span means "no override").
pub open spec fn span_style_at(spans: Seq<StyleSpan>, p: int, base: Style) -> Style
    decreases spans.len(),
{
    if spans.len() == 0 {
        base
    } else if spans[0].start <= p && p < spans[0].end {
        spans[0].style
    } else {
        span_style_at(spans.drop_first(), p, base)
    }
}

/// Whether some span of the list contains `p`.
pub open spec fn span_covers(spans: Seq<StyleSpan>, p: int) -> bool {
    exists|k: int| 0 <= k < spans.len() && (#[trigger] spans[k]).start <= p < spans[k].end
}

/// The style a tag stack resolves to: the base style patched with each
/// active tag's theme style, bottom of the stack first, so the tag pushed
/// last wins every field it sets.
pub open spec fn resolve_stack(theme: Theme, base: Style, tags: Seq<u32>) -> Style
    decreases tags.len(),
{
    if tags.len() == 0 {
        base
    } else {
        spec_patch(resolve_stack(theme, base, tags.drop_last()), spec_highlight(theme, tags.last()))
    }
}

/// If the spans before `i` all miss `p` and span `i` contains it, the list
/// resolves `p` to span `i`'s style.
pub proof fn lemma_span_style_at_first_cover(spans: Seq<StyleSpan>, i: int, p: int, base: Style)
    requires
        0 <= i < spans.len(),
        forall|k: int| 0 <= k < i ==> !((#[trigger] spans[k]).start <= p < spans[k].end),
        spans[i].start <= p < spans[i].end,
    ensures
        span_style_at(spans, p, base) == spans[i].style,
    decreases i,
{
    if i > 0 {
        assert(spans.drop_first()[i - 1] == spans[i]);
        assert(forall|k: int| 0 <= k < i - 1 ==> spans.drop_first()[k] == spans[k + 1]);
        lemma_span_style_at_first_cover(spans.drop_first(), i - 1, p, base);
    }
}

/// A position no span contains resolves to the base style.
pub proof fn lemma_span_style_at_not_covered(spans: Seq<StyleSpan>, p: int, base: Style)
    requires
        !span_covers(spans, p),
    ensures
        span_style_at(spans, p, base) == base,
    decreases spans.len(),
{
    if spans.len() > 0 {
        assert(!(spans[0].start <= p < spans[0].end));
        assert(forall|k: int|
            0 <= k < spans.drop_first().len() ==> spans.drop_first()[k] == spans[k + 1]);
        lemma_span_style_at_not_covered(spans.drop_first(), p, base);
    }
}

/// Fold the theme over one tag stack, bottom first, seeded from `base`.
fn resolve_tags(theme: &Theme, base: Style, tags: &Vec<u32>) -> (r: Style)
    ensures
        r == resolve_stack(*theme, base, tags@),
{
    let mut acc = base;
    let mut i: usize = 0;
    while i < tags.len()
        invariant
            i <= tags.len(),
            acc == resolve_stack(*theme, base, tags@.take(i as int)),
        decreases tags.len() - i,
    {
        acc = acc.patch(theme.highlight(tags[i]));
        proof {
            assert(tags@.take(i + 1).drop_last() =~= tags@.take(i as int));
            assert(tags@.take(i + 1).last() == tags@[i as int]);
        }
        i += 1;
    }
    proof {
        assert(tags@.take(tags@.len() as int) =~= tags@);
    }
    acc
}

/// Resolve one highlight-event stream into style spans. The output is a
/// strictly increasing, non-overlapping span sequence whatever the input —
/// a malformed event is discarded, never propagated — and on a legal
/// stream it resolves every position to the theme fold over exactly the
/// stack of tags the stream holds active there.
#[verifier::loop_isolation(false)]
pub fn style_spans(events: &Vec<HighlightEvent>, theme: &Theme, base: Style) -> (out: Vec<
    StyleSpan,
>)
    ensures
        spans_sorted(out@),
        wf_events(events@) ==> forall|p: int|
            span_style_at(out@, p, base) == resolve_stack(*theme, base, stack_at(events@, p)),
{
    let flat = flatten(events);
    let mut out: Vec<StyleSpan> = Vec::new();
    let mut k: usize = 0;
    while k < flat.len()
        invariant
            k <= flat.len(),
            out@.len() == k as int,
            forall|m: int|
                0 <= m < k ==> (#[trigger] out@[m]).start == flat@[m].start && out@[m].end
                    == flat@[m].end && out@[m].style == resolve_stack(
                    *theme,
                    base,
                    flat@[m].tags@,
                ),
        decreases flat.len() - k,
    {
        let style = resolve_tags(theme, base, &flat[k].tags);
        out.push(StyleSpan { style, start: flat[k].start, end: flat[k].end });
        k += 1;
    }
    proof {
        assert(spans_sorted(out@));
        if wf_events(events@) {
            assert forall|p: int|
                span_style_at(out@, p, base) == resolve_stack(
                    *theme,
                    base,
                    stack_at(events@, p),
                ) by {
                if flat_covers(flat@, p) {
                    let c = choose|c: int|
                        0 <= c < flat@.len() && (#[trigger] flat@[c]).start <= p < flat@[c].end;
                    // spans are disjoint, so no other span contains p
                    assert forall|m: int| 0 <= m < c implies !((#[trigger] flat@[m]).start <= p
                        < flat@[m].end) by {
                        assert(flat@[m].end <= flat@[c].start);
                    }
                    lemma_flat_at_first_cover(flat@, c, p);
                    assert(out@[c].start <= p < out@[c].end);
                    assert(forall|m: int| 0 <= m < c ==> !((#[trigger] out@[m]).start <= p
                        < out@[m].end));
                    lemma_span_style_at_first_cover(out@, c, p, base);
                } else {
                    lemma_flat_at_not_covered(flat@, p);
                    assert(!span_covers(out@, p)) by {
                        if span_covers(out@, p) {
                            let c = choose|c: int|
                                0 <= c < out@.len() && (#[trigger] out@[c]).start <= p
                                    < out@[c].end;
                            assert(flat@[c].start <= p < flat@[c].end);
                        }
                    }
                    lemma_span_style_at_not_covered(out@, p, base);
                    assert(stack_at(events@, p) == Seq::<u32>::empty());
                    assert(Seq::<u32>::empty().len() == 0);
                }
            }
        }
    }
    out
}

} // verus!
