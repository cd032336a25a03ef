//! The highlight compositor: flattening one event stream into ordered,
//! non-overlapping spans, and merging streams so that the active stack at
//! every position is the concatenation of the inputs' stacks, overlay after
//! base.

use vstd::prelude::*;

use crate::events::{
    covers, end_depth, end_pos, end_stack, lemma_covers_append, lemma_stack_at_append,
    lemma_stack_at_no_cover, lemma_walk_append, lemma_wf_append, lemma_wf_no_cover, stack_at,
    stack_at_from, wf_events, wf_from, HighlightEvent,
};

verus! {

/// One flattened span: the tags in force over `[start, end)`, bottom of the
/// stack first.
#[derive(Debug)]
pub struct FlatSpan {
    pub tags: Vec<u32>,
    pub start: usize,
    pub end: usize,
}

/// Spans are non-empty, ordered and non-overlapping.
pub open spec fn flat_sorted(fs: Seq<FlatSpan>) -> bool {
    &&& forall|i: int| 0 <= i < fs.len() ==> (#[trigger] fs[i]).start < fs[i].end
    &&& forall|i: int, j: int| 0 <= i < j < fs.len() ==> (#[trigger] fs[i]).end <= (#[trigger] fs[j]).start
}

/// The tag stack the span list assigns to position `p`: the tags of the
/// first span containing `p`, or the empty stack.
pub open spec fn flat_at(fs: Seq<FlatSpan>, p: int) -> Seq<u32>
    decreases fs.len(),
{
    if fs.len() == 0 {
        Seq::empty()
    } else if fs[0].start <= p && p < fs[0].end {
        fs[0].tags@
    } else {
        flat_at(fs.drop_first(), p)
    }
}

/// Whether some span of the list contains `p`.
pub open spec fn flat_covers(fs: Seq<FlatSpan>, p: int) -> bool {
    exists|k: int| 0 <= k < fs.len() && (#[trigger] fs[k]).start <= p < fs[k].end
}

/// If the spans before `i` all miss `p` and span `i` contains it, the list
/// assigns span `i`'s tags to `p`.
pub proof fn lemma_flat_at_first_cover(fs: Seq<FlatSpan>, i: int, p: int)
    requires
        0 <= i < fs.len(),
        forall|k: int| 0 <= k < i ==> !((#[trigger] fs[k]).start <= p < fs[k].end),
        fs[i].start <= p < fs[i].end,
    ensures
        flat_at(fs, p) == fs[i].tags@,
    decreases i,
{
    if i > 0 {
        assert(fs.drop_first()[i - 1] == fs[i]);
        assert(forall|k: int| 0 <= k < i - 1 ==> fs.drop_first()[k] == fs[k + 1]);
        lemma_flat_at_first_cover(fs.drop_first(), i - 1, p);
    }
}

/// A position no span contains gets the empty stack.
pub proof fn lemma_flat_at_not_covered(fs: Seq<FlatSpan>, p: int)
    requires
        !flat_covers(fs, p),
    ensures
        flat_at(fs, p) == Seq::<u32>::empty(),
    decreases fs.len(),
{
    if fs.len() > 0 {
        assert(!(fs[0].start <= p < fs[0].end));
        assert(forall|k: int| 0 <= k < fs.drop_first().len() ==> fs.drop_first()[k] == fs[k + 1]);
        lemma_flat_at_not_covered(fs.drop_first(), p);
    }
}

/// Appending a span that misses `p` leaves the stack at `p` unchanged.
pub proof fn lemma_flat_at_push_out(fs: Seq<FlatSpan>, s: FlatSpan, p: int)
    requires
        !(s.start <= p < s.end),
    ensures
        flat_at(fs.push(s), p) == flat_at(fs, p),
    decreases fs.len(),
{
    if fs.len() == 0 {
        reveal_with_fuel(flat_at, 3);
        assert(fs.push(s)[0] == s);
        assert(fs.push(s).drop_first() =~= Seq::<FlatSpan>::empty());
    } else {
        assert(fs.push(s)[0] == fs[0]);
        assert(fs.push(s).drop_first() =~= fs.drop_first().push(s));
        lemma_flat_at_push_out(fs.drop_first(), s, p);
    }
}

/// Appending a span that contains `p`, after spans that all miss it,
/// assigns the new span's tags to `p`.
pub proof fn lemma_flat_at_push_in(fs: Seq<FlatSpan>, s: FlatSpan, p: int)
    requires
        !flat_covers(fs, p),
        s.start <= p < s.end,
    ensures
        flat_at(fs.push(s), p) == s.tags@,
{
    let fs2 = fs.push(s);
    assert(forall|k: int| 0 <= k < fs.len() ==> fs2[k] == fs[k]);
    lemma_flat_at_first_cover(fs2, fs.len() as int, p);
}

/// Copy the tags of `src` onto the end of `dst`.
fn append_tags(dst: &mut Vec<u32>, src: &Vec<u32>)
    ensures
        final(dst)@ == old(dst)@ + src@,
{
    let mut k: usize = 0;
    while k < src.len()
        invariant
            k <= src.len(),
            dst@ == old(dst)@ + src@.take(k as int),
        decreases src.len() - k,
    {
        dst.push(src[k]);
        assert(src@.take(k + 1) =~= src@.take(k as int).push(src@[k as int]));
        assert(old(dst)@ + src@.take(k + 1) =~= (old(dst)@ + src@.take(k as int)).push(
            src@[k as int],
        ));
        k += 1;
    }
    assert(src@.take(src@.len() as int) =~= src@);
}

/// Flatten one event stream into ordered, non-overlapping spans carrying
/// their full tag stacks. A malformed event — an `End` with no open
/// `Start`, or a span that is empty, goes backwards, or overlaps the one
/// before it — is discarded and the walk continues, so the output is
/// ordered whatever the input; on a legal stream the output assigns to
/// every position exactly the stack the stream puts in force there.
#[verifier::loop_isolation(false)]
pub fn flatten(events: &Vec<HighlightEvent>) -> (out: Vec<FlatSpan>)
    ensures
        flat_sorted(out@),
        forall|k: int| 0 <= k < out@.len() ==> (#[trigger] out@[k]).tags@.len() > 0,
        wf_events(events@) ==> forall|p: int| flat_at(out@, p) == stack_at(events@, p),
{
    let ghost evs = events@;
    let mut out: Vec<FlatSpan> = Vec::new();
    let mut stack: Vec<u32> = Vec::new();
    let mut last_end: usize = 0;
    let mut i: usize = 0;
    proof {
        assert(evs.skip(0) =~= evs);
    }
    while i < events.len()
        invariant
            i <= events.len(),
            evs == events@,
            flat_sorted(out@),
            forall|k: int| 0 <= k < out@.len() ==> (#[trigger] out@[k]).tags@.len() > 0
                && out@[k].end <= last_end,
            wf_events(evs) ==> wf_from(evs.skip(i as int), stack@.len() as int, last_end as int),
            wf_events(evs) ==> forall|p: int|
                stack_at(evs, p) == (if flat_covers(out@, p) {
                    flat_at(out@, p)
                } else {
                    stack_at_from(evs.skip(i as int), stack@, p)
                }),
        decreases events.len() - i,
    {
        let ghost rest = evs.skip(i as int);
        proof {
            assert(rest[0] == evs[i as int]);
            assert(rest.drop_first() =~= evs.skip(i as int + 1));
        }
        let ghost old_out = out@;
        let ghost old_stack = stack@;
        let ghost old_last_end = last_end;
        match events[i] {
            HighlightEvent::Start { tag } => {
                stack.push(tag);
            },
            HighlightEvent::End => {
                if stack.len() > 0 {
                    stack.pop();
                }
            },
            HighlightEvent::Span { start, end } => {
                if start < end && last_end <= start {
                    if stack.len() > 0 {
                        let mut tags: Vec<u32> = Vec::new();
                        append_tags(&mut tags, &stack);
                        assert(tags@ =~= stack@);
                        let span = FlatSpan { tags, start, end };
                        proof {
                            assert(forall|k: int| 0 <= k < old_out.len()
                                ==> (#[trigger] old_out[k]).end <= start);
                            assert(forall|k: int| 0 <= k < out@.push(span).len() - 1
                                ==> #[trigger] out@.push(span)[k] == old_out[k]);
                        }
                        out.push(span);
                    }
                    last_end = end;
                }
            },
        }
        proof {
            if wf_events(evs) {
                match evs[i as int] {
                    HighlightEvent::Start { tag } => {
                        assert(stack@ == old_stack.push(tag));
                        assert forall|p: int|
                            stack_at(evs, p) == (if flat_covers(out@, p) {
                                flat_at(out@, p)
                            } else {
                                stack_at_from(evs.skip(i + 1), stack@, p)
                            }) by {
                            assert(stack_at_from(rest, old_stack, p) == stack_at_from(
                                rest.drop_first(),
                                old_stack.push(tag),
                                p,
                            ));
                        }
                    },
                    HighlightEvent::End => {
                        assert(old_stack.len() > 0);
                        assert(stack@ == old_stack.drop_last());
                        assert forall|p: int|
                            stack_at(evs, p) == (if flat_covers(out@, p) {
                                flat_at(out@, p)
                            } else {
                                stack_at_from(evs.skip(i + 1), stack@, p)
                            }) by {
                            assert(stack_at_from(rest, old_stack, p) == stack_at_from(
                                rest.drop_first(),
                                old_stack.drop_last(),
                                p,
                            ));
                        }
                    },
                    HighlightEvent::Span { start, end } => {
                        assert(old_last_end <= start && start < end);
                        assert(wf_from(rest.drop_first(), old_stack.len() as int, end as int));
                        if old_stack.len() > 0 {
                            let span = out@.last();
                            assert(out@ == old_out.push(span));
                            assert(span.tags@ == old_stack && span.start == start && span.end
                                == end);
                            assert forall|p: int|
                                stack_at(evs, p) == (if flat_covers(out@, p) {
                                    flat_at(out@, p)
                                } else {
                                    stack_at_from(evs.skip(i + 1), stack@, p)
                                }) by {
                                if flat_covers(old_out, p) {
                                    let k = choose|k: int|
                                        0 <= k < old_out.len() && (#[trigger] old_out[k]).start
                                            <= p < old_out[k].end;
                                    assert(p < start);
                                    lemma_flat_at_push_out(old_out, span, p);
                                    assert(out@[k] == old_out[k]);
                                    assert(out@[k].start <= p < out@[k].end);
                                    assert(flat_covers(out@, p));
                                } else if start <= p && p < end {
                                    lemma_flat_at_push_in(old_out, span, p);
                                    assert(out@[old_out.len() as int] == span);
                                    assert(out@[old_out.len() as int].start <= p < out@[old_out.len() as int].end);
                                    assert(flat_covers(out@, p));
                                    assert(stack_at_from(rest, old_stack, p) == old_stack);
                                } else {
                                    lemma_flat_at_push_out(old_out, span, p);
                                    assert(!flat_covers(out@, p)) by {
                                        assert(forall|k: int| 0 <= k < old_out.len()
                                            ==> #[trigger] out@[k] == old_out[k]);
                                    }
                                    assert(stack_at_from(rest, old_stack, p) == stack_at_from(
                                        rest.drop_first(),
                                        old_stack,
                                        p,
                                    ));
                                }
                            }
                        } else {
                            assert forall|p: int|
                                stack_at(evs, p) == (if flat_covers(out@, p) {
                                    flat_at(out@, p)
                                } else {
                                    stack_at_from(evs.skip(i + 1), stack@, p)
                                }) by {
                                if !flat_covers(out@, p) && start <= p && p < end {
                                    assert(stack_at_from(rest, old_stack, p) == old_stack);
                                    assert(old_stack =~= Seq::<u32>::empty());
                                    lemma_wf_no_cover(
                                        rest.drop_first(),
                                        old_stack.len() as int,
                                        end as int,
                                        p,
                                    );
                                    lemma_stack_at_no_cover(rest.drop_first(), old_stack, p);
                                } else if !flat_covers(out@, p) {
                                    assert(stack_at_from(rest, old_stack, p) == stack_at_from(
                                        rest.drop_first(),
                                        old_stack,
                                        p,
                                    ));
                                }
                            }
                        }
                    },
                }
            }
        }
        i += 1;
    }
    proof {
        if wf_events(evs) {
            assert(evs.skip(i as int) =~= Seq::<HighlightEvent>::empty());
            assert forall|p: int| flat_at(out@, p) == stack_at(evs, p) by {
                if !flat_covers(out@, p) {
                    lemma_flat_at_not_covered(out@, p);
                }
            }
        }
    }
    out
}

/// An upper bound on every span end in the list.
pub open spec fn flat_max_end(fs: Seq<FlatSpan>) -> int
    decreases fs.len(),
{
    if fs.len() == 0 {
        0
    } else {
        let rest = flat_max_end(fs.drop_first());
        if fs[0].end > rest {
            fs[0].end as int
        } else {
            rest
        }
    }
}

proof fn lemma_flat_max_end(fs: Seq<FlatSpan>, i: int)
    requires
        0 <= i < fs.len(),
    ensures
        fs[i].end <= flat_max_end(fs),
        flat_max_end(fs) >= 0,
    decreases i,
{
    if i == 0 {
    } else {
        assert(fs.drop_first()[i - 1] == fs[i]);
        lemma_flat_max_end(fs.drop_first(), i - 1);
    }
}

/// Merge two ordered span lists. The output is ordered and assigns to every
/// position the concatenation of the two inputs' stacks there, the second
/// list's tags on top.
#[verifier::loop_isolation(false)]
pub fn merge_flat(a: &Vec<FlatSpan>, b: &Vec<FlatSpan>) -> (out: Vec<FlatSpan>)
    requires
        flat_sorted(a@),
        flat_sorted(b@),
        forall|k: int| 0 <= k < a@.len() ==> (#[trigger] a@[k]).tags@.len() > 0,
        forall|k: int| 0 <= k < b@.len() ==> (#[trigger] b@[k]).tags@.len() > 0,
    ensures
        flat_sorted(out@),
        forall|k: int| 0 <= k < out@.len() ==> (#[trigger] out@[k]).tags@.len() > 0,
        forall|p: int| flat_at(out@, p) == flat_at(a@, p) + flat_at(b@, p),
{
    let mut out: Vec<FlatSpan> = Vec::new();
    let mut ia: usize = 0;
    let mut ib: usize = 0;
    let mut pos: usize = 0;
    let ghost bound = if flat_max_end(a@) > flat_max_end(b@) {
        flat_max_end(a@)
    } else {
        flat_max_end(b@)
    };
    proof {
        if a@.len() > 0 {
            lemma_flat_max_end(a@, 0);
        }
        if b@.len() > 0 {
            lemma_flat_max_end(b@, 0);
        }
        assert forall|p: int| p < 0 implies flat_at(out@, p) == flat_at(a@, p) + flat_at(b@, p) by {
            assert(!flat_covers(a@, p));
            assert(!flat_covers(b@, p));
            lemma_flat_at_not_covered(a@, p);
            lemma_flat_at_not_covered(b@, p);
            assert(Seq::<u32>::empty() + Seq::<u32>::empty() =~= Seq::<u32>::empty());
        }
    }
    while ia < a.len() || ib < b.len()
        invariant
            flat_sorted(a@),
            flat_sorted(b@),
            forall|k: int| 0 <= k < a@.len() ==> (#[trigger] a@[k]).tags@.len() > 0,
            forall|k: int| 0 <= k < b@.len() ==> (#[trigger] b@[k]).tags@.len() > 0,
            ia <= a.len(),
            ib <= b.len(),
            forall|k: int| 0 <= k < ia ==> (#[trigger] a@[k]).end <= pos,
            forall|k: int| 0 <= k < ib ==> (#[trigger] b@[k]).end <= pos,
            ia < a.len() ==> pos < a@[ia as int].end,
            ib < b.len() ==> pos < b@[ib as int].end,
            flat_sorted(out@),
            forall|k: int| 0 <= k < out@.len() ==> (#[trigger] out@[k]).end <= pos,
            forall|k: int| 0 <= k < out@.len() ==> (#[trigger] out@[k]).tags@.len() > 0,
            forall|p: int| p < pos ==> flat_at(out@, p) == flat_at(a@, p) + flat_at(b@, p),
            pos <= bound,
        decreases a.len() + b.len() - ia - ib, bound - pos,
    {
        let ghost old_out = out@;
        let ghost old_pos = pos as int;
        let in_a = ia < a.len() && a[ia].start <= pos;
        let in_b = ib < b.len() && b[ib].start <= pos;
        if !in_a && !in_b {
            // a gap: jump to the nearest upcoming span start
            let next: usize = if ia < a.len() {
                if ib < b.len() {
                    if a[ia].start <= b[ib].start {
                        a[ia].start
                    } else {
                        b[ib].start
                    }
                } else {
                    a[ia].start
                }
            } else {
                b[ib].start
            };
            proof {
                if ia < a.len() {
                    lemma_flat_max_end(a@, ia as int);
                }
                if ib < b.len() {
                    lemma_flat_max_end(b@, ib as int);
                }
                assert forall|p: int| p < next implies flat_at(out@, p) == flat_at(a@, p)
                    + flat_at(b@, p) by {
                    if old_pos <= p {
                        assert forall|k: int| 0 <= k < a@.len() implies !((#[trigger] a@[k]).start
                            <= p < a@[k].end) by {
                            if k >= ia {
                                if ia < a.len() && k > ia {
                                    assert(a@[ia as int].end <= a@[k].start);
                                }
                            }
                        }
                        assert forall|k: int| 0 <= k < b@.len() implies !((#[trigger] b@[k]).start
                            <= p < b@[k].end) by {
                            if k >= ib {
                                if ib < b.len() && k > ib {
                                    assert(b@[ib as int].end <= b@[k].start);
                                }
                            }
                        }
                        lemma_flat_at_not_covered(a@, p);
                        lemma_flat_at_not_covered(b@, p);
                        assert(!flat_covers(out@, p));
                        lemma_flat_at_not_covered(out@, p);
                        assert(Seq::<u32>::empty() + Seq::<u32>::empty() =~= Seq::<u32>::empty());
                    }
                }
            }
            pos = next;
        } else {
            let mut q: usize = if in_a {
                a[ia].end
            } else {
                b[ib].end
            };
            if in_a && in_b && b[ib].end < q {
                q = b[ib].end;
            }
            if !in_a && ia < a.len() && a[ia].start < q {
                q = a[ia].start;
            }
            if !in_b && ib < b.len() && b[ib].start < q {
                q = b[ib].start;
            }
            let mut tags: Vec<u32> = Vec::new();
            if in_a {
                append_tags(&mut tags, &a[ia].tags);
            }
            if in_b {
                append_tags(&mut tags, &b[ib].tags);
            }
            let ghost ta = if in_a {
                a@[ia as int].tags@
            } else {
                Seq::<u32>::empty()
            };
            let ghost tb = if in_b {
                b@[ib as int].tags@
            } else {
                Seq::<u32>::empty()
            };
            proof {
                assert(tags@ =~= ta + tb);
                if in_a {
                    lemma_flat_max_end(a@, ia as int);
                }
                if in_b {
                    lemma_flat_max_end(b@, ib as int);
                }
            }
            let span = FlatSpan { tags, start: pos, end: q };
            out.push(span);
            proof {
                let sp = out@.last();
                assert(out@ == old_out.push(sp));
                assert(forall|k: int| 0 <= k < old_out.len() ==> #[trigger] out@[k] == old_out[k]);
                assert forall|p: int| p < q implies flat_at(out@, p) == flat_at(a@, p) + flat_at(
                    b@,
                    p,
                ) by {
                    if p < old_pos {
                        lemma_flat_at_push_out(old_out, sp, p);
                    } else {
                        // the side stacks over the emitted segment
                        if in_a {
                            assert(forall|k: int| 0 <= k < ia ==> !((#[trigger] a@[k]).start <= p
                                < a@[k].end));
                            lemma_flat_at_first_cover(a@, ia as int, p);
                        } else {
                            assert forall|k: int| 0 <= k < a@.len() implies !((#[trigger] a@[k]).start <= p < a@[k].end) by {
                                if k >= ia {
                                    if ia < a.len() && k > ia {
                                        assert(a@[ia as int].end <= a@[k].start);
                                    }
                                }
                            }
                            lemma_flat_at_not_covered(a@, p);
                        }
                        if in_b {
                            assert(forall|k: int| 0 <= k < ib ==> !((#[trigger] b@[k]).start <= p
                                < b@[k].end));
                            lemma_flat_at_first_cover(b@, ib as int, p);
                        } else {
                            assert forall|k: int| 0 <= k < b@.len() implies !((#[trigger] b@[k]).start <= p < b@[k].end) by {
                                if k >= ib {
                                    if ib < b.len() && k > ib {
                                        assert(b@[ib as int].end <= b@[k].start);
                                    }
                                }
                            }
                            lemma_flat_at_not_covered(b@, p);
                        }
                        assert(!flat_covers(old_out, p));
                        lemma_flat_at_push_in(old_out, sp, p);
                        assert(flat_at(a@, p) == ta && flat_at(b@, p) == tb);
                    }
                }
            }
            pos = q;
        }
        // retire every span that ends at or before the new position
        while ia < a.len() && a[ia].end <= pos
            invariant
                flat_sorted(a@),
                ia <= a.len(),
                forall|k: int| 0 <= k < ia ==> (#[trigger] a@[k]).end <= pos,
            decreases a.len() - ia,
        {
            ia += 1;
        }
        while ib < b.len() && b[ib].end <= pos
            invariant
                flat_sorted(b@),
                ib <= b.len(),
                forall|k: int| 0 <= k < ib ==> (#[trigger] b@[k]).end <= pos,
            decreases b.len() - ib,
        {
            ib += 1;
        }
    }
    proof {
        assert forall|p: int| flat_at(out@, p) == flat_at(a@, p) + flat_at(b@, p) by {
            if p >= pos {
                assert(forall|k: int| 0 <= k < a@.len() ==> (#[trigger] a@[k]).end <= pos);
                assert(forall|k: int| 0 <= k < b@.len() ==> (#[trigger] b@[k]).end <= pos);
                lemma_flat_at_not_covered(a@, p);
                lemma_flat_at_not_covered(b@, p);
                assert(!flat_covers(out@, p));
                lemma_flat_at_not_covered(out@, p);
                assert(Seq::<u32>::empty() + Seq::<u32>::empty() =~= Seq::<u32>::empty());
            }
        }
    }
    out
}

/// The event block that re-opens a flattened span: its tags started in
/// order, the span itself, and the matching ends.
pub open spec fn block_of(tags: Seq<u32>, s: usize, e: usize) -> Seq<HighlightEvent>
    decreases tags.len(),
{
    if tags.len() == 0 {
        seq![HighlightEvent::Span { start: s, end: e }]
    } else {
        seq![HighlightEvent::Start { tag: tags[0] }] + block_of(tags.drop_first(), s, e) + seq![
            HighlightEvent::End,
        ]
    }
}

/// A block is self-contained: well-formed from any non-negative depth, it
/// restores the walk state it was entered with, covers exactly its span,
/// and puts its tags, over the surrounding stack, in force there.
pub proof fn lemma_block(tags: Seq<u32>, s: usize, e: usize, outer: Seq<u32>, depth: int, pos: int, p: int)
    requires
        pos <= s,
        s < e,
        depth >= 0,
    ensures
        wf_from(block_of(tags, s, e), depth, pos),
        end_depth(block_of(tags, s, e), depth) == depth,
        end_stack(block_of(tags, s, e), outer) == outer,
        end_pos(block_of(tags, s, e), pos) == e as int,
        covers(block_of(tags, s, e), p) == (s <= p < e),
        stack_at_from(block_of(tags, s, e), outer, p) == (if s <= p < e {
            outer + tags
        } else {
            Seq::<u32>::empty()
        }),
    decreases tags.len(),
{
    let blk = block_of(tags, s, e);
    let empty_evs = Seq::<HighlightEvent>::empty();
    assert(forall|st2: Seq<u32>, q: int|
        stack_at_from(empty_evs, st2, q) == Seq::<u32>::empty());
    assert(forall|d: int, q: int| wf_from(empty_evs, d, q));
    assert(forall|d: int| end_depth(empty_evs, d) == d);
    assert(forall|st2: Seq<u32>| end_stack(empty_evs, st2) == st2);
    assert(forall|q: int| end_pos(empty_evs, q) == q);
    assert(forall|q: int| !covers(empty_evs, q));
    if tags.len() == 0 {
        let sp = HighlightEvent::Span { start: s, end: e };
        assert(blk == seq![sp]);
        assert(blk[0] == sp);
        assert(blk.drop_first() =~= empty_evs);
        if s <= p < e {
            assert(stack_at_from(blk, outer, p) == outer);
            assert(outer + tags =~= outer);
        } else {
            assert(stack_at_from(blk, outer, p) == stack_at_from(empty_evs, outer, p));
        }
        assert(blk.drop_first() == empty_evs);
        assert(wf_from(blk.drop_first(), depth, e as int));
        assert(wf_from(blk, depth, pos));
        assert(end_depth(blk.drop_first(), depth) == depth);
        assert(end_depth(blk, depth) == depth);
        assert(end_stack(blk.drop_first(), outer) == outer);
        assert(end_stack(blk, outer) == outer);
        assert(end_pos(blk.drop_first(), e as int) == e as int);
        assert(end_pos(blk, pos) == e as int);
        assert(!covers(blk.drop_first(), p));
        assert(covers(blk, p) == (s <= p < e));
    } else {
        let t0 = tags[0];
        let st = seq![HighlightEvent::Start { tag: t0 }];
        let en = seq![HighlightEvent::End];
        let inner = block_of(tags.drop_first(), s, e);
        let outer2 = outer.push(t0);
        lemma_block(tags.drop_first(), s, e, outer2, depth + 1, pos, p);
        assert(blk == st + inner + en);
        // one-event facts about the opening and closing pieces
        assert(st.drop_first() =~= empty_evs);
        assert(en.drop_first() =~= empty_evs);
        assert(outer2.drop_last() =~= outer);
        assert(end_stack(st.drop_first(), outer2) == outer2);
        assert(end_stack(st, outer) == outer2);
        assert(end_depth(st.drop_first(), depth + 1) == depth + 1);
        assert(end_depth(st, depth) == depth + 1);
        assert(end_pos(st.drop_first(), pos) == pos);
        assert(end_pos(st, pos) == pos);
        assert(!covers(st.drop_first(), p));
        assert(!covers(st, p));
        assert(!covers(en, p));
        assert(end_stack(en.drop_first(), outer) == outer);
        assert(end_stack(en, outer2) == outer);
        assert(end_depth(en.drop_first(), depth) == depth);
        assert(end_depth(en, depth + 1) == depth);
        assert(end_pos(en.drop_first(), e as int) == e as int);
        assert(end_pos(en, e as int) == e as int);
        assert(wf_from(en.drop_first(), depth, e as int));
        assert(wf_from(en, depth + 1, e as int));
        assert(stack_at_from(en.drop_first(), outer, p) == Seq::<u32>::empty());
        assert(stack_at_from(en, outer2, p) == Seq::<u32>::empty());
        // the walk state across st + inner + en
        lemma_walk_append(st, inner, outer, depth, pos);
        lemma_walk_append(st + inner, en, outer, depth, pos);
        assert(end_stack(st + inner, outer) == outer2);
        assert(end_depth(st + inner, depth) == depth + 1);
        assert(end_pos(st + inner, pos) == e as int);
        assert(end_stack(en, outer2) == outer);
        assert(end_depth(en, depth + 1) == depth);
        assert(end_pos(en, e as int) == e as int);
        assert(end_stack(blk, outer) == outer);
        assert(end_depth(blk, depth) == depth);
        assert(end_pos(blk, pos) == e as int);
        // coverage
        lemma_covers_append(st, inner, p);
        lemma_covers_append(st + inner, en, p);
        assert(covers(blk, p) == (s <= p < e));
        // well-formedness
        assert(wf_from(en, depth + 1, e as int));
        assert(blk[0] == st[0]);
        assert((st + inner)[0] == st[0]);
        assert((st + inner).drop_first() =~= inner);
        assert(wf_from(st + inner, depth, pos));
        lemma_wf_append(st + inner, en, depth, pos);
        assert(wf_from(blk, depth, pos));
        // the stack in force at p
        lemma_stack_at_append(st + inner, en, outer, p);
        assert((st + inner)[0] == st[0]);
        assert((st + inner).drop_first() =~= inner);
        assert(stack_at_from(st + inner, outer, p) == stack_at_from(inner, outer2, p));
        if s <= p < e {
            assert(covers(st + inner, p));
            assert(stack_at_from(blk, outer, p) == stack_at_from(inner, outer2, p));
            assert(stack_at_from(inner, outer2, p) == outer2 + tags.drop_first());
            assert(outer2 + tags.drop_first() =~= outer + tags);
        } else {
            assert(!covers(st + inner, p));
            assert(stack_at_from(blk, outer, p) == stack_at_from(en, outer2, p));
        }
    }
}

/// A block is its opening `Start`s, its span, and its `End`s, in order.
proof fn lemma_block_shape(tags: Seq<u32>, s: usize, e: usize)
    ensures
        block_of(tags, s, e) =~= Seq::new(tags.len(), |i: int| HighlightEvent::Start { tag: tags[i] })
            + seq![HighlightEvent::Span { start: s, end: e }] + Seq::new(
            tags.len(),
            |i: int| HighlightEvent::End,
        ),
    decreases tags.len(),
{
    if tags.len() > 0 {
        lemma_block_shape(tags.drop_first(), s, e);
    }
}

/// Rebuild an event stream from ordered flat spans: each span becomes its
/// own fully nested block. The result is a legal stream that puts exactly
/// the span list's stack in force at every position.
#[verifier::loop_isolation(false)]
pub fn unflatten(flat: &Vec<FlatSpan>) -> (out: Vec<HighlightEvent>)
    requires
        flat_sorted(flat@),
    ensures
        wf_events(out@),
        forall|p: int| stack_at(out@, p) == flat_at(flat@, p),
{
    let mut out: Vec<HighlightEvent> = Vec::new();
    let mut j: usize = 0;
    proof {
        assert(flat@.take(0) =~= Seq::<FlatSpan>::empty());
    }
    while j < flat.len()
        invariant
            j <= flat.len(),
            wf_from(out@, 0, 0),
            end_depth(out@, 0) == 0,
            end_stack(out@, Seq::<u32>::empty()) == Seq::<u32>::empty(),
            end_pos(out@, 0) == (if j == 0 {
                0
            } else {
                flat@[j - 1].end as int
            }),
            forall|p: int| covers(out@, p) == flat_covers(flat@.take(j as int), p),
            forall|p: int| stack_at(out@, p) == flat_at(flat@.take(j as int), p),
        decreases flat.len() - j,
    {
        let ghost base = out@;
        let ghost tg = flat@[j as int].tags@;
        let s = flat[j].start;
        let e = flat[j].end;
        let mut k: usize = 0;
        while k < flat[j].tags.len()
            invariant
                k <= tg.len(),
                out@ =~= base + Seq::new(k as nat, |i: int| HighlightEvent::Start { tag: tg[i] }),
            decreases tg.len() - k,
        {
            out.push(HighlightEvent::Start { tag: flat[j].tags[k] });
            proof {
                assert(Seq::new((k + 1) as nat, |i: int| HighlightEvent::Start { tag: tg[i] }) =~= Seq::new(
                    k as nat,
                    |i: int| HighlightEvent::Start { tag: tg[i] },
                ).push(HighlightEvent::Start { tag: tg[k as int] }));
            }
            k += 1;
        }
        out.push(HighlightEvent::Span { start: s, end: e });
        let mut k2: usize = 0;
        while k2 < flat[j].tags.len()
            invariant
                k2 <= tg.len(),
                out@ =~= base + Seq::new(tg.len(), |i: int| HighlightEvent::Start { tag: tg[i] })
                    + seq![HighlightEvent::Span { start: s, end: e }] + Seq::new(
                    k2 as nat,
                    |i: int| HighlightEvent::End,
                ),
            decreases tg.len() - k2,
        {
            out.push(HighlightEvent::End);
            proof {
                assert(Seq::new((k2 + 1) as nat, |i: int| HighlightEvent::End) =~= Seq::new(
                    k2 as nat,
                    |i: int| HighlightEvent::End,
                ).push(HighlightEvent::End));
            }
            k2 += 1;
        }
        proof {
            let blk = block_of(tg, s, e);
            lemma_block_shape(tg, s, e);
            assert(out@ =~= base + blk);
            let ghost old_pos: int = if j == 0 {
                0
            } else {
                flat@[j - 1].end as int
            };
            assert(old_pos <= s as int);
            lemma_walk_append(base, blk, Seq::<u32>::empty(), 0, 0);
            lemma_block(tg, s, e, Seq::<u32>::empty(), 0, old_pos, 0);
            lemma_wf_append(base, blk, 0, 0);
            assert(flat@.take(j + 1) =~= flat@.take(j as int).push(flat@[j as int]));
            assert forall|p: int| covers(out@, p) == flat_covers(flat@.take(j + 1), p)
                && stack_at(out@, p) == flat_at(flat@.take(j + 1), p) by {
                lemma_covers_append(base, blk, p);
                lemma_stack_at_append(base, blk, Seq::<u32>::empty(), p);
                lemma_block(tg, s, e, Seq::<u32>::empty(), 0, old_pos, p);
                let prev = flat@.take(j as int);
                let now = flat@.take(j + 1);
                assert(now[j as int] == flat@[j as int]);
                assert(forall|m: int| 0 <= m < j ==> now[m] == prev[m]);
                assert(out@ == base + blk);
                if covers(base, p) {
                    // a span before `j` holds at `p`; the new block lies past it
                    let m = choose|m: int|
                        0 <= m < prev.len() && (#[trigger] prev[m]).start <= p < prev[m].end;
                    assert(prev[m] == flat@[m]);
                    assert(flat@[m].end <= flat@[j as int].start);
                    assert(p < s as int);
                    assert(!(s <= p < e));
                    lemma_flat_at_push_out(prev, flat@[j as int], p);
                    assert(stack_at(out@, p) == stack_at_from(base, Seq::<u32>::empty(), p));
                    assert(stack_at(base, p) == flat_at(prev, p));
                    assert(stack_at(out@, p) == flat_at(prev, p));
                    assert(flat_at(now, p) == flat_at(prev, p));
                    assert(now[m].start <= p < now[m].end);
                    assert(flat_covers(now, p));
                    assert(covers(out@, p));
                } else if s <= p < e {
                    assert(!flat_covers(prev, p));
                    lemma_flat_at_push_in(prev, flat@[j as int], p);
                    assert(stack_at(out@, p) == stack_at_from(blk, end_stack(base, Seq::<u32>::empty()), p));
                    assert(stack_at(out@, p) == Seq::<u32>::empty() + tg);
                    assert(Seq::<u32>::empty() + tg =~= tg);
                    assert(flat_at(now, p) == tg);
                    assert(now[j as int].start <= p < now[j as int].end);
                    assert(flat_covers(now, p));
                    assert(covers(blk, p));
                    assert(covers(out@, p));
                } else {
                    assert(!flat_covers(prev, p));
                    lemma_flat_at_push_out(prev, flat@[j as int], p);
                    lemma_flat_at_not_covered(prev, p);
                    lemma_stack_at_no_cover(base, Seq::<u32>::empty(), p);
                    assert(stack_at(out@, p) == Seq::<u32>::empty());
                    assert(!flat_covers(now, p)) by {
                        assert(forall|m: int| 0 <= m < now.len() ==> now[m] == flat@[m]);
                    }
                    lemma_flat_at_not_covered(now, p);
                    assert(flat_at(now, p) == Seq::<u32>::empty());
                    assert(!covers(blk, p));
                    assert(!covers(out@, p));
                }
            }
        }
        j += 1;
    }
    proof {
        assert(flat@.take(j as int) =~= flat@);
    }
    out
}

/// Merge a base stream with an overlay stream. The result is a legal
/// stream; at every position its active stack is the base's stack with the
/// overlay's stack pushed on top, so the overlay outranks the base wherever
/// both apply, and a malformed event in either input is discarded as the
/// resolver would discard it.
pub fn merge(base: &Vec<HighlightEvent>, overlay: &Vec<HighlightEvent>) -> (out: Vec<
    HighlightEvent,
>)
    ensures
        wf_events(out@),
        wf_events(base@) && wf_events(overlay@) ==> forall|p: int|
            stack_at(out@, p) == stack_at(base@, p) + stack_at(overlay@, p),
{
    let fa = flatten(base);
    let fb = flatten(overlay);
    let m = merge_flat(&fa, &fb);
    let out = unflatten(&m);
    proof {
        if wf_events(base@) && wf_events(overlay@) {
            assert forall|p: int|
                stack_at(out@, p) == stack_at(base@, p) + stack_at(overlay@, p) by {
                assert(stack_at(out@, p) == flat_at(m@, p));
                assert(flat_at(m@, p) == flat_at(fa@, p) + flat_at(fb@, p));
                assert(flat_at(fa@, p) == stack_at(base@, p));
                assert(flat_at(fb@, p) == stack_at(overlay@, p));
            }
        }
    }
    out
}

/// The stack that a list of overlay streams, folded left to right, adds on
/// top of a base stream at position `p`.
pub open spec fn overlay_stacks(ovs: Seq<Seq<HighlightEvent>>, p: int) -> Seq<u32>
    decreases ovs.len(),
{
    if ovs.len() == 0 {
        Seq::empty()
    } else {
        overlay_stacks(ovs.drop_last(), p) + stack_at(ovs.last(), p)
    }
}

/// The views of a list of event vectors.
pub open spec fn views_of(ovs: Seq<Vec<HighlightEvent>>) -> Seq<Seq<HighlightEvent>> {
    ovs.map_values(|v: Vec<HighlightEvent>| v@)
}

/// Every stream in the list is legal.
pub open spec fn all_wf(ovs: Seq<Seq<HighlightEvent>>) -> bool {
    forall|i: int| 0 <= i < ovs.len() ==> wf_events(#[trigger] ovs[i])
}

/// Fold a list of overlay streams onto a base stream, left to right, by
/// repeated pairwise merges. A stream folded later lands higher in the
/// stack, so it overrides the ones folded before it wherever they overlap.
#[verifier::loop_isolation(false)]
pub fn merge_all(base: &Vec<HighlightEvent>, overlays: &Vec<Vec<HighlightEvent>>) -> (out: Vec<
    HighlightEvent,
>)
    ensures
        wf_events(out@),
        wf_events(base@) && all_wf(views_of(overlays@)) ==> forall|p: int|
            stack_at(out@, p) == stack_at(base@, p) + overlay_stacks(views_of(overlays@), p),
{
    let none: Vec<HighlightEvent> = Vec::new();
    let mut acc = merge(base, &none);
    let ghost vs = views_of(overlays@);
    proof {
        assert(vs.take(0) =~= Seq::<Seq<HighlightEvent>>::empty());
        if wf_events(base@) {
            assert(wf_events(none@));
            assert forall|p: int|
                stack_at(acc@, p) == stack_at(base@, p) + overlay_stacks(vs.take(0), p) by {
                assert(stack_at_from(none@, Seq::<u32>::empty(), p) == Seq::<u32>::empty());
                assert(stack_at(base@, p) + Seq::<u32>::empty() =~= stack_at(base@, p));
            }
        }
    }
    let mut idx: usize = 0;
    while idx < overlays.len()
        invariant
            idx <= overlays.len(),
            vs == views_of(overlays@),
            wf_events(acc@),
            wf_events(base@) && all_wf(vs) ==> forall|p: int|
                stack_at(acc@, p) == stack_at(base@, p) + overlay_stacks(vs.take(idx as int), p),
        decreases overlays.len() - idx,
    {
        let ghost old_acc = acc@;
        let next = merge(&acc, &overlays[idx]);
        acc = next;
        proof {
            if wf_events(base@) && all_wf(vs) {
                assert(vs[idx as int] == overlays@[idx as int]@);
                assert(wf_events(overlays@[idx as int]@));
                assert(vs.take(idx + 1).drop_last() =~= vs.take(idx as int));
                assert(vs.take(idx + 1).last() == vs[idx as int]);
                assert forall|p: int|
                    stack_at(acc@, p) == stack_at(base@, p) + overlay_stacks(vs.take(idx + 1), p)
                    by {
                    assert(stack_at(acc@, p) == stack_at(old_acc, p) + stack_at(
                        overlays@[idx as int]@,
                        p,
                    ));
                    assert(stack_at(old_acc, p) == stack_at(base@, p) + overlay_stacks(
                        vs.take(idx as int),
                        p,
                    ));
                    assert(overlay_stacks(vs.take(idx + 1), p) == overlay_stacks(
                        vs.take(idx as int),
                        p,
                    ) + stack_at(vs[idx as int], p));
                    assert((stack_at(base@, p) + overlay_stacks(vs.take(idx as int), p))
                        + stack_at(vs[idx as int], p) =~= stack_at(base@, p) + (overlay_stacks(
                        vs.take(idx as int),
                        p,
                    ) + stack_at(vs[idx as int], p)));
                }
            }
        }
        idx += 1;
    }
    proof {
        assert(vs.take(overlays@.len() as int) =~= vs);
    }
    acc
}

/// Merging three streams left to right gives, at every position, the same
/// active stack as folding the last overlay onto the merge of the first
/// two in either grouping: the compositor is associative. The premises are
/// exactly what `merge` ensures of each intermediate stream.
pub proof fn lemma_merge_associative(
    a: Seq<HighlightEvent>,
    b: Seq<HighlightEvent>,
    c: Seq<HighlightEvent>,
    ab: Seq<HighlightEvent>,
    bc: Seq<HighlightEvent>,
    ab_c: Seq<HighlightEvent>,
    a_bc: Seq<HighlightEvent>,
)
    requires
        forall|p: int| stack_at(ab, p) == stack_at(a, p) + stack_at(b, p),
        forall|p: int| stack_at(ab_c, p) == stack_at(ab, p) + stack_at(c, p),
        forall|p: int| stack_at(bc, p) == stack_at(b, p) + stack_at(c, p),
        forall|p: int| stack_at(a_bc, p) == stack_at(a, p) + stack_at(bc, p),
    ensures
        forall|p: int| stack_at(ab_c, p) == stack_at(a_bc, p),
{
    assert forall|p: int| stack_at(ab_c, p) == stack_at(a_bc, p) by {
        assert((stack_at(a, p) + stack_at(b, p)) + stack_at(c, p) =~= stack_at(a, p) + (stack_at(
            b,
            p,
        ) + stack_at(c, p)));
    }
}

/// Merging any legal stream with an empty overlay leaves the active stack,
/// and with it every resolved style, unchanged at every position: the
/// empty overlay is an identity of the compositor. The premise is exactly
/// what `merge` ensures of its result.
pub proof fn lemma_merge_empty_overlay(
    a: Seq<HighlightEvent>,
    m: Seq<HighlightEvent>,
    theme: crate::style::Theme,
    base: crate::style::Style,
)
    requires
        wf_events(a),
        forall|p: int|
            stack_at(m, p) == stack_at(a, p) + stack_at(Seq::<HighlightEvent>::empty(), p),
    ensures
        forall|p: int| stack_at(m, p) == stack_at(a, p),
        forall|p: int|
            crate::resolve::resolve_stack(theme, base, stack_at(m, p))
                == crate::resolve::resolve_stack(theme, base, stack_at(a, p)),
{
    assert forall|p: int| stack_at(m, p) == stack_at(a, p) by {
        assert(stack_at_from(Seq::<HighlightEvent>::empty(), Seq::<u32>::empty(), p)
            == Seq::<u32>::empty());
        assert(stack_at(a, p) + Seq::<u32>::empty() =~= stack_at(a, p));
    }
}

/// In an ordered span list, the span containing `p` — unique, since spans
/// do not overlap — decides the stack at `p`.
pub proof fn lemma_flat_at_cover_sorted(fs: Seq<FlatSpan>, m: int, p: int)
    requires
        flat_sorted(fs),
        0 <= m < fs.len(),
        fs[m].start <= p < fs[m].end,
    ensures
        flat_at(fs, p) == fs[m].tags@,
{
    assert forall|k: int| 0 <= k < m implies !((#[trigger] fs[k]).start <= p < fs[k].end) by {
        assert(fs[k].end <= fs[m].start);
    }
    lemma_flat_at_first_cover(fs, m, p);
}

} // verus!
