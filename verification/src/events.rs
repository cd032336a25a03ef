//! The highlight-event wire format shared by every producer, and its
//! denotation: the stack of highlight tags active at each character
//! position.

use vstd::prelude::*;

verus! {

/// One event of a highlight stream. A legal stream is well-nested: every
/// `Span` is preceded by a (possibly empty) stack of open `Start`s whose
/// matching `End`s close in reverse order, and consecutive `Span`s are
/// non-decreasing and non-overlapping.
#[derive(Clone, Copy, Debug, PartialEq, Eq, Structural)]
pub enum HighlightEvent {
    Start { tag: u32 },
    End,
    Span { start: usize, end: usize },
}

/// Well-formedness of the remainder of a stream, given the number of open
/// `Start`s (`depth`) and the end of the last span seen (`pos`).
pub open spec fn wf_from(evs: Seq<HighlightEvent>, depth: int, pos: int) -> bool
    decreases evs.len(),
{
    if evs.len() == 0 {
        true
    } else {
        match evs[0] {
            HighlightEvent::Start { tag } => wf_from(evs.drop_first(), depth + 1, pos),
            HighlightEvent::End => depth > 0 && wf_from(evs.drop_first(), depth - 1, pos),
            HighlightEvent::Span { start, end } => pos <= start && start < end && wf_from(
                evs.drop_first(),
                depth,
                end as int,
            ),
        }
    }
}

/// A legal stream: well-nested, with strictly non-empty, non-decreasing,
/// non-overlapping spans.
pub open spec fn wf_events(evs: Seq<HighlightEvent>) -> bool {
    wf_from(evs, 0, 0)
}

/// The stack of tags in force at position `p`, continuing a walk of the
/// stream with the given open stack. The stack returned is the one current
/// when the first span containing `p` is emitted; a position no span covers
/// denotes the empty stack. An `End` with no matching `Start` is a no-op,
/// as the resolver discards it.
pub open spec fn stack_at_from(evs: Seq<HighlightEvent>, stack: Seq<u32>, p: int) -> Seq<u32>
    decreases evs.len(),
{
    if evs.len() == 0 {
        Seq::empty()
    } else {
        match evs[0] {
            HighlightEvent::Start { tag } => stack_at_from(evs.drop_first(), stack.push(tag), p),
            HighlightEvent::End => stack_at_from(
                evs.drop_first(),
                if stack.len() > 0 {
                    stack.drop_last()
                } else {
                    stack
                },
                p,
            ),
            HighlightEvent::Span { start, end } => if start <= p && p < end {
                stack
            } else {
                stack_at_from(evs.drop_first(), stack, p)
            },
        }
    }
}

/// The stack of tags a stream puts in force at position `p`.
pub open spec fn stack_at(evs: Seq<HighlightEvent>, p: int) -> Seq<u32> {
    stack_at_from(evs, Seq::empty(), p)
}

/// Whether any span event of the stream contains position `p`.
pub open spec fn covers(evs: Seq<HighlightEvent>, p: int) -> bool
    decreases evs.len(),
{
    if evs.len() == 0 {
        false
    } else {
        match evs[0] {
            HighlightEvent::Span { start, end } => (start <= p && p < end) || covers(
                evs.drop_first(),
                p,
            ),
            _ => covers(evs.drop_first(), p),
        }
    }
}

/// The open stack left after walking the whole stream.
pub open spec fn end_stack(evs: Seq<HighlightEvent>, stack: Seq<u32>) -> Seq<u32>
    decreases evs.len(),
{
    if evs.len() == 0 {
        stack
    } else {
        match evs[0] {
            HighlightEvent::Start { tag } => end_stack(evs.drop_first(), stack.push(tag)),
            HighlightEvent::End => end_stack(
                evs.drop_first(),
                if stack.len() > 0 {
                    stack.drop_last()
                } else {
                    stack
                },
            ),
            HighlightEvent::Span { .. } => end_stack(evs.drop_first(), stack),
        }
    }
}

/// The depth of the open stack after walking the whole stream.
pub open spec fn end_depth(evs: Seq<HighlightEvent>, depth: int) -> int
    decreases evs.len(),
{
    if evs.len() == 0 {
        depth
    } else {
        match evs[0] {
            HighlightEvent::Start { tag } => end_depth(evs.drop_first(), depth + 1),
            HighlightEvent::End => end_depth(evs.drop_first(), depth - 1),
            HighlightEvent::Span { .. } => end_depth(evs.drop_first(), depth),
        }
    }
}

/// The end of the last span after walking the whole stream.
pub open spec fn end_pos(evs: Seq<HighlightEvent>, pos: int) -> int
    decreases evs.len(),
{
    if evs.len() == 0 {
        pos
    } else {
        match evs[0] {
            HighlightEvent::Span { start, end } => end_pos(evs.drop_first(), end as int),
            _ => end_pos(evs.drop_first(), pos),
        }
    }
}

/// A stream that covers no span containing `p` denotes the empty stack
/// at `p`, whatever stack it starts from.
pub proof fn lemma_stack_at_no_cover(evs: Seq<HighlightEvent>, stack: Seq<u32>, p: int)
    requires
        !covers(evs, p),
    ensures
        stack_at_from(evs, stack, p) == Seq::<u32>::empty(),
    decreases evs.len(),
{
    if evs.len() > 0 {
        match evs[0] {
            HighlightEvent::Start { tag } => {
                lemma_stack_at_no_cover(evs.drop_first(), stack.push(tag), p);
            },
            HighlightEvent::End => {
                if stack.len() > 0 {
                    lemma_stack_at_no_cover(evs.drop_first(), stack.drop_last(), p);
                } else {
                    lemma_stack_at_no_cover(evs.drop_first(), stack, p);
                }
            },
            HighlightEvent::Span { start, end } => {
                lemma_stack_at_no_cover(evs.drop_first(), stack, p);
            },
        }
    }
}

/// In a well-formed remainder every span lies at or after `pos`, so no
/// position strictly before `pos` is covered.
pub proof fn lemma_wf_no_cover(evs: Seq<HighlightEvent>, depth: int, pos: int, p: int)
    requires
        wf_from(evs, depth, pos),
        p < pos,
    ensures
        !covers(evs, p),
    decreases evs.len(),
{
    if evs.len() > 0 {
        match evs[0] {
            HighlightEvent::Start { tag } => {
                lemma_wf_no_cover(evs.drop_first(), depth + 1, pos, p);
            },
            HighlightEvent::End => {
                lemma_wf_no_cover(evs.drop_first(), depth - 1, pos, p);
            },
            HighlightEvent::Span { start, end } => {
                lemma_wf_no_cover(evs.drop_first(), depth, end as int, p);
            },
        }
    }
}

/// How the walk state composes over concatenation.
pub proof fn lemma_walk_append(a: Seq<HighlightEvent>, b: Seq<HighlightEvent>, stack: Seq<u32>, depth: int, pos: int)
    ensures
        end_stack(a + b, stack) == end_stack(b, end_stack(a, stack)),
        end_depth(a + b, depth) == end_depth(b, end_depth(a, depth)),
        end_pos(a + b, pos) == end_pos(b, end_pos(a, pos)),
    decreases a.len(),
{
    if a.len() == 0 {
        assert(a + b =~= b);
    } else {
        assert((a + b)[0] == a[0]);
        assert((a + b).drop_first() =~= a.drop_first() + b);
        match a[0] {
            HighlightEvent::Start { tag } => {
                lemma_walk_append(a.drop_first(), b, stack.push(tag), depth + 1, pos);
            },
            HighlightEvent::End => {
                let st2 = if stack.len() > 0 {
                    stack.drop_last()
                } else {
                    stack
                };
                lemma_walk_append(a.drop_first(), b, st2, depth - 1, pos);
            },
            HighlightEvent::Span { start, end } => {
                lemma_walk_append(a.drop_first(), b, stack, depth, end as int);
            },
        }
    }
}

/// Coverage distributes over concatenation.
pub proof fn lemma_covers_append(a: Seq<HighlightEvent>, b: Seq<HighlightEvent>, p: int)
    ensures
        covers(a + b, p) == (covers(a, p) || covers(b, p)),
    decreases a.len(),
{
    if a.len() == 0 {
        assert(a + b =~= b);
    } else {
        assert((a + b)[0] == a[0]);
        assert((a + b).drop_first() =~= a.drop_first() + b);
        lemma_covers_append(a.drop_first(), b, p);
    }
}

/// The stack at `p` of a concatenation: decided by `a` where `a` covers
/// `p`, and otherwise by `b`, continued from the stack `a` leaves open.
pub proof fn lemma_stack_at_append(a: Seq<HighlightEvent>, b: Seq<HighlightEvent>, stack: Seq<u32>, p: int)
    ensures
        stack_at_from(a + b, stack, p) == if covers(a, p) {
            stack_at_from(a, stack, p)
        } else {
            stack_at_from(b, end_stack(a, stack), p)
        },
    decreases a.len(),
{
    if a.len() == 0 {
        assert(a + b =~= b);
    } else {
        assert((a + b)[0] == a[0]);
        assert((a + b).drop_first() =~= a.drop_first() + b);
        match a[0] {
            HighlightEvent::Start { tag } => {
                lemma_stack_at_append(a.drop_first(), b, stack.push(tag), p);
            },
            HighlightEvent::End => {
                let st2 = if stack.len() > 0 {
                    stack.drop_last()
                } else {
                    stack
                };
                lemma_stack_at_append(a.drop_first(), b, st2, p);
            },
            HighlightEvent::Span { start, end } => {
                if !(start <= p && p < end) {
                    lemma_stack_at_append(a.drop_first(), b, stack, p);
                }
            },
        }
    }
}

/// Well-formedness composes over concatenation when the second part is
/// well-formed from the state the first part leaves behind.
pub proof fn lemma_wf_append(a: Seq<HighlightEvent>, b: Seq<HighlightEvent>, depth: int, pos: int)
    requires
        wf_from(a, depth, pos),
        wf_from(b, end_depth(a, depth), end_pos(a, pos)),
    ensures
        wf_from(a + b, depth, pos),
    decreases a.len(),
{
    if a.len() == 0 {
        assert(a + b =~= b);
    } else {
        assert((a + b)[0] == a[0]);
        assert((a + b).drop_first() =~= a.drop_first() + b);
        match a[0] {
            HighlightEvent::Start { tag } => {
                lemma_wf_append(a.drop_first(), b, depth + 1, pos);
            },
            HighlightEvent::End => {
                lemma_wf_append(a.drop_first(), b, depth - 1, pos);
            },
            HighlightEvent::Span { start, end } => {
                lemma_wf_append(a.drop_first(), b, depth, end as int);
            },
        }
    }
}

} // verus!
