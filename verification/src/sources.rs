//! The highlight stream sources: selection/cursor highlights derived from
//! the selection model, and diagnostic highlights derived from the stored
//! diagnostics, each emitted as a legal highlight-event stream over the
//! visible window.

use vstd::prelude::*;

use crate::compose::{
    flat_covers, flat_sorted, lemma_flat_at_cover_sorted, lemma_flat_at_not_covered, unflatten,
    FlatSpan,
};
use crate::events::{stack_at, wf_events, HighlightEvent};

verus! {

/// A diagnostic severity, in rising order of importance.
#[derive(Clone, Copy, Debug, PartialEq, Eq, Structural)]
pub enum Severity {
    Hint,
    Info,
    Warning,
    Error,
}

/// A severity's position in the importance order.
pub open spec fn severity_rank(s: Severity) -> int {
    match s {
        Severity::Hint => 0,
        Severity::Info => 1,
        Severity::Warning => 2,
        Severity::Error => 3,
    }
}

/// A severity's position in the importance order.
pub fn severity_rank_of(s: Severity) -> (r: u8)
    ensures
        r as int == severity_rank(s),
{
    match s {
        Severity::Hint => 0,
        Severity::Info => 1,
        Severity::Warning => 2,
        Severity::Error => 3,
    }
}

/// One stored diagnostic: a character range and its severity.
#[derive(Clone, Copy, Debug, PartialEq, Eq, Structural)]
pub struct Diagnostic {
    pub start: usize,
    pub end: usize,
    pub severity: Severity,
}

/// One selection range: anchor and head in either order; the extent runs
/// from the smaller to the larger.
#[derive(Clone, Copy, Debug, PartialEq, Eq, Structural)]
pub struct SelectionRange {
    pub anchor: usize,
    pub head: usize,
}

pub open spec fn sel_from(r: SelectionRange) -> int {
    if r.anchor <= r.head {
        r.anchor as int
    } else {
        r.head as int
    }
}

pub open spec fn sel_to(r: SelectionRange) -> int {
    if r.anchor <= r.head {
        r.head as int
    } else {
        r.anchor as int
    }
}

/// Ranges are normalized: ordered and non-overlapping, as a selection
/// model keeps them.
pub open spec fn sel_sorted(rs: Seq<SelectionRange>) -> bool {
    forall|i: int, j: int|
        0 <= i < j < rs.len() ==> sel_to(#[trigger] rs[i]) <= sel_from(#[trigger] rs[j])
}

/// One of the first `k` ranges contains position `p`.
pub open spec fn sel_covers_upto(rs: Seq<SelectionRange>, k: int, p: int) -> bool {
    exists|i: int| 0 <= i < k && sel_from(#[trigger] rs[i]) <= p < sel_to(rs[i])
}

/// Some range contains position `p`.
pub open spec fn sel_covers(rs: Seq<SelectionRange>, p: int) -> bool {
    sel_covers_upto(rs, rs.len() as int, p)
}

/// The selection/cursor highlight stream: for a focused view, one span per
/// non-empty selection range, tagged with the selection highlight tag; for
/// an unfocused view, nothing — selection highlighting is a focus-gated
/// visual, not a document property. Empty ranges are filtered out before
/// merging.
#[verifier::loop_isolation(false)]
pub fn selection_events(ranges: &Vec<SelectionRange>, is_focused: bool, tag: u32) -> (out: Vec<
    HighlightEvent,
>)
    requires
        sel_sorted(ranges@),
    ensures
        wf_events(out@),
        !is_focused ==> out@.len() == 0,
        is_focused ==> forall|p: int|
            stack_at(out@, p) == (if sel_covers(ranges@, p) {
                seq![tag]
            } else {
                Seq::<u32>::empty()
            }),
{
    if !is_focused {
        let none: Vec<HighlightEvent> = Vec::new();
        proof {
            assert(wf_events(none@));
        }
        return none;
    }
    let mut flat: Vec<FlatSpan> = Vec::new();
    let ghost mut hi: int = 0;
    let mut k: usize = 0;
    while k < ranges.len()
        invariant
            k <= ranges.len(),
            flat_sorted(flat@),
            forall|m: int| 0 <= m < flat@.len() ==> (#[trigger] flat@[m]).tags@ == seq![tag],
            forall|m: int| 0 <= m < flat@.len() ==> (#[trigger] flat@[m]).end <= hi,
            forall|i: int| k <= i < ranges@.len() ==> hi <= sel_from(#[trigger] ranges@[i]),
            forall|p: int| flat_covers(flat@, p) == sel_covers_upto(ranges@, k as int, p),
        decreases ranges.len() - k,
    {
        let r = ranges[k];
        let f = if r.anchor <= r.head {
            r.anchor
        } else {
            r.head
        };
        let t = if r.anchor <= r.head {
            r.head
        } else {
            r.anchor
        };
        let ghost old_flat = flat@;
        if f < t {
            let mut tags: Vec<u32> = Vec::new();
            tags.push(tag);
            proof {
                assert(tags@ =~= seq![tag]);
            }
            flat.push(FlatSpan { tags, start: f, end: t });
            proof {
                let n0 = old_flat.len() as int;
                assert(flat@ == old_flat.push(flat@[n0]));
                assert(forall|m: int| 0 <= m < n0 ==> #[trigger] flat@[m] == old_flat[m]);
                assert(flat@[n0].start == f && flat@[n0].end == t);
                hi = t as int;
                assert forall|i: int| k + 1 <= i < ranges@.len() implies hi <= sel_from(
                    #[trigger] ranges@[i],
                ) by {
                    assert(sel_to(ranges@[k as int]) <= sel_from(ranges@[i]));
                }
                assert forall|p: int|
                    flat_covers(flat@, p) == sel_covers_upto(ranges@, k + 1, p) by {
                    if flat_covers(flat@, p) {
                        let m = choose|m: int|
                            0 <= m < flat@.len() && (#[trigger] flat@[m]).start <= p
                                < flat@[m].end;
                        if m < n0 {
                            assert(flat_covers(old_flat, p));
                            assert(sel_covers_upto(ranges@, k as int, p));
                            let i = choose|i: int|
                                0 <= i < k && sel_from(#[trigger] ranges@[i]) <= p < sel_to(
                                    ranges@[i],
                                );
                            assert(sel_covers_upto(ranges@, k + 1, p));
                        } else {
                            assert(sel_from(ranges@[k as int]) <= p < sel_to(ranges@[k as int]));
                            assert(sel_covers_upto(ranges@, k + 1, p));
                        }
                    }
                    if sel_covers_upto(ranges@, k + 1, p) {
                        let i = choose|i: int|
                            0 <= i < k + 1 && sel_from(#[trigger] ranges@[i]) <= p < sel_to(
                                ranges@[i],
                            );
                        if i < k {
                            assert(sel_covers_upto(ranges@, k as int, p));
                            assert(flat_covers(old_flat, p));
                            let m = choose|m: int|
                                0 <= m < old_flat.len() && (#[trigger] old_flat[m]).start <= p
                                    < old_flat[m].end;
                            assert(flat@[m].start <= p < flat@[m].end);
                        } else {
                            assert(flat@[n0].start <= p < flat@[n0].end);
                        }
                        assert(flat_covers(flat@, p));
                    }
                }
            }
        } else {
            proof {
                assert forall|p: int|
                    flat_covers(flat@, p) == sel_covers_upto(ranges@, k + 1, p) by {
                    if sel_covers_upto(ranges@, k + 1, p) {
                        let i = choose|i: int|
                            0 <= i < k + 1 && sel_from(#[trigger] ranges@[i]) <= p < sel_to(
                                ranges@[i],
                            );
                        assert(i < k);
                        assert(sel_covers_upto(ranges@, k as int, p));
                    }
                    if sel_covers_upto(ranges@, k as int, p) {
                        let i = choose|i: int|
                            0 <= i < k && sel_from(#[trigger] ranges@[i]) <= p < sel_to(
                                ranges@[i],
                            );
                        assert(sel_covers_upto(ranges@, k + 1, p));
                    }
                }
            }
        }
        k += 1;
    }
    let out = unflatten(&flat);
    proof {
        assert forall|p: int|
            stack_at(out@, p) == (if sel_covers(ranges@, p) {
                seq![tag]
            } else {
                Seq::<u32>::empty()
            }) by {
            if flat_covers(flat@, p) {
                let m = choose|m: int|
                    0 <= m < flat@.len() && (#[trigger] flat@[m]).start <= p < flat@[m].end;
                lemma_flat_at_cover_sorted(flat@, m, p);
            } else {
                lemma_flat_at_not_covered(flat@, p);
            }
        }
    }
    out
}

/// Diagnostics of one severity are stored in reading order.
pub open spec fn diags_sorted(ds: Seq<Diagnostic>, sev: Severity) -> bool {
    forall|i: int, j: int|
        0 <= i < j < ds.len() && (#[trigger] ds[i]).severity == sev && (#[trigger] ds[j]).severity
            == sev ==> ds[i].start <= ds[j].start
}

/// The diagnostic takes part in this severity's stream over the window
/// `[ws, we)`: right severity, non-empty, and intersecting the window.
pub open spec fn diag_matches(d: Diagnostic, sev: Severity, ws: int, we: int) -> bool {
    d.severity == sev && d.start < d.end && (d.start as int) < we && ws < d.end as int
}

/// One of the first `k` diagnostics takes part and contains position `p`.
pub open spec fn diag_covers_upto(
    ds: Seq<Diagnostic>,
    sev: Severity,
    ws: int,
    we: int,
    k: int,
    p: int,
) -> bool {
    exists|i: int|
        0 <= i < k && diag_matches(#[trigger] ds[i], sev, ws, we) && ds[i].start <= p < ds[i].end
}

/// Some taking-part diagnostic contains position `p`.
pub open spec fn diag_covers(ds: Seq<Diagnostic>, sev: Severity, ws: int, we: int, p: int) -> bool {
    diag_covers_upto(ds, sev, ws, we, ds.len() as int, p)
}

/// The diagnostic highlight stream for one severity bucket: one span per
/// diagnostic of that severity that intersects the visible window
/// `[win_start, win_end)`, with overlapping spans coalesced so the stream
/// stays ordered and non-overlapping. At every position the stream holds
/// the severity's tag active exactly where such a diagnostic sits.
#[verifier::loop_isolation(false)]
pub fn diagnostic_events(
    diags: &Vec<Diagnostic>,
    severity: Severity,
    tag: u32,
    win_start: usize,
    win_end: usize,
) -> (out: Vec<HighlightEvent>)
    requires
        diags_sorted(diags@, severity),
    ensures
        wf_events(out@),
        forall|p: int|
            stack_at(out@, p) == (if diag_covers(
                diags@,
                severity,
                win_start as int,
                win_end as int,
                p,
            ) {
                seq![tag]
            } else {
                Seq::<u32>::empty()
            }),
{
    let ghost ws = win_start as int;
    let ghost we = win_end as int;
    let mut flat: Vec<FlatSpan> = Vec::new();
    let mut active = false;
    let mut cur_start: usize = 0;
    let mut cur_end: usize = 0;
    let ghost mut cur_idx: int = 0;
    let mut k: usize = 0;
    while k < diags.len()
        invariant
            k <= diags.len(),
            flat_sorted(flat@),
            forall|m: int| 0 <= m < flat@.len() ==> (#[trigger] flat@[m]).tags@ == seq![tag],
            !active ==> flat@.len() == 0,
            active ==> cur_start < cur_end,
            active ==> forall|m: int| 0 <= m < flat@.len() ==> (#[trigger] flat@[m]).end < cur_start,
            active ==> 0 <= cur_idx < k && diag_matches(diags@[cur_idx], severity, ws, we)
                && diags@[cur_idx].start == cur_start,
            forall|p: int|
                #![trigger diag_covers_upto(diags@, severity, ws, we, k as int, p)]
                (flat_covers(flat@, p) || (active && cur_start <= p < cur_end))
                    == diag_covers_upto(diags@, severity, ws, we, k as int, p),
        decreases diags.len() - k,
    {
        let d = diags[k];
        let is_match = severity_rank_of(d.severity) == severity_rank_of(severity) && d.start
            < d.end && d.start < win_end && win_start < d.end;
        proof {
            assert(is_match == diag_matches(diags@[k as int], severity, ws, we));
        }
        let ghost old_flat = flat@;
        let ghost old_active = active;
        let ghost old_cs = cur_start as int;
        let ghost old_ce = cur_end as int;
        proof {
            assert(forall|p: int|
                (flat_covers(flat@, p) || (active && cur_start <= p < cur_end))
                    == diag_covers_upto(diags@, severity, ws, we, k as int, p));
            assert(forall|p: int|
                (flat_covers(old_flat, p) || (old_active && old_cs <= p < old_ce))
                    == diag_covers_upto(diags@, severity, ws, we, k as int, p));
        }
        if is_match {
            if !active {
                active = true;
                cur_start = d.start;
                cur_end = d.end;
                proof {
                    cur_idx = k as int;
                }
            } else if d.start <= cur_end {
                // overlaps or touches the open group: widen it
                proof {
                    assert(diags@[cur_idx].start <= diags@[k as int].start);
                }
                if d.end > cur_end {
                    cur_end = d.end;
                }
            } else {
                // the open group is done; start a new one
                let mut tags: Vec<u32> = Vec::new();
                tags.push(tag);
                proof {
                    assert(tags@ =~= seq![tag]);
                }
                flat.push(FlatSpan { tags, start: cur_start, end: cur_end });
                proof {
                    let n0 = old_flat.len() as int;
                    assert(flat@ == old_flat.push(flat@[n0]));
                    assert(forall|m: int| 0 <= m < n0 ==> #[trigger] flat@[m] == old_flat[m]);
                    assert(flat@[n0].start == old_cs && flat@[n0].end == old_ce);
                }
                active = true;
                cur_start = d.start;
                cur_end = d.end;
                proof {
                    cur_idx = k as int;
                }
            }
        }
        proof {
            let dk = diags@[k as int];
            assert forall|p: int|
                #![trigger diag_covers_upto(diags@, severity, ws, we, k + 1, p)]
                (flat_covers(flat@, p) || (active && cur_start <= p < cur_end))
                    == diag_covers_upto(diags@, severity, ws, we, k + 1, p) by {
                let lhs_old = flat_covers(old_flat, p) || (old_active && old_cs <= p < old_ce);
                // the loop entry fact, at this position
                assert(lhs_old == diag_covers_upto(diags@, severity, ws, we, k as int, p));
                if diag_covers_upto(diags@, severity, ws, we, k as int, p) {
                    let i = choose|i: int|
                        0 <= i < k && diag_matches(#[trigger] diags@[i], severity, ws, we)
                            && diags@[i].start <= p < diags@[i].end;
                    assert(diag_covers_upto(diags@, severity, ws, we, k + 1, p));
                }
                // the old spans keep their indices in every branch
                assert(forall|m: int|
                    0 <= m < old_flat.len() ==> #[trigger] flat@[m] == old_flat[m]);
                if flat_covers(old_flat, p) {
                    let m = choose|m: int|
                        0 <= m < old_flat.len() && (#[trigger] old_flat[m]).start <= p
                            < old_flat[m].end;
                    assert(flat@[m].start <= p < flat@[m].end);
                    assert(flat_covers(flat@, p));
                }
                if is_match {
                    if !old_active {
                        // fresh group [d.start, d.end)
                        if active && cur_start <= p < cur_end {
                            assert(dk.start <= p < dk.end);
                            assert(diag_covers_upto(diags@, severity, ws, we, k + 1, p));
                        }
                        if diag_covers_upto(diags@, severity, ws, we, k + 1, p) {
                            let i = choose|i: int|
                                0 <= i < k + 1 && diag_matches(
                                    #[trigger] diags@[i],
                                    severity,
                                    ws,
                                    we,
                                ) && diags@[i].start <= p < diags@[i].end;
                            if i < k {
                                assert(lhs_old);
                            } else {
                                assert(cur_start <= p < cur_end);
                            }
                        }
                    } else if dk.start as int <= old_ce {
                        // widened group [old_cs, max(old_ce, d.end))
                        assert(cur_start as int == old_cs);
                        assert(old_cs <= dk.start);
                        if active && cur_start <= p < cur_end {
                            if p < old_ce {
                                assert(lhs_old);
                                assert(diag_covers_upto(diags@, severity, ws, we, k + 1, p));
                            } else {
                                assert(dk.start <= p < dk.end);
                                assert(diag_covers_upto(diags@, severity, ws, we, k + 1, p));
                            }
                        }
                        if diag_covers_upto(diags@, severity, ws, we, k + 1, p) {
                            let i = choose|i: int|
                                0 <= i < k + 1 && diag_matches(
                                    #[trigger] diags@[i],
                                    severity,
                                    ws,
                                    we,
                                ) && diags@[i].start <= p < diags@[i].end;
                            if i < k {
                                if !flat_covers(old_flat, p) {
                                    assert(old_cs <= p < old_ce);
                                    assert(cur_start <= p < cur_end);
                                }
                            } else {
                                assert(cur_start <= p < cur_end);
                            }
                        }
                    } else {
                        // old group pushed as a span; new group [d.start, d.end)
                        let n0 = old_flat.len() as int;
                        if flat_covers(flat@, p) && !flat_covers(old_flat, p) && !(cur_start <= p
                            < cur_end) {
                            let m = choose|m: int|
                                0 <= m < flat@.len() && (#[trigger] flat@[m]).start <= p
                                    < flat@[m].end;
                            if m < n0 {
                                assert(flat_covers(old_flat, p));
                            } else {
                                assert(old_cs <= p < old_ce);
                                assert(lhs_old);
                            }
                        }
                        if active && cur_start <= p < cur_end {
                            assert(dk.start <= p < dk.end);
                            assert(diag_covers_upto(diags@, severity, ws, we, k + 1, p));
                        }
                        if flat_covers(flat@, p) {
                            let m = choose|m: int|
                                0 <= m < flat@.len() && (#[trigger] flat@[m]).start <= p
                                    < flat@[m].end;
                            if m < n0 {
                                assert(flat_covers(old_flat, p));
                                assert(lhs_old);
                            } else {
                                assert(old_cs <= p < old_ce);
                                assert(lhs_old);
                            }
                            assert(diag_covers_upto(diags@, severity, ws, we, k + 1, p));
                        }
                        if diag_covers_upto(diags@, severity, ws, we, k + 1, p) {
                            let i = choose|i: int|
                                0 <= i < k + 1 && diag_matches(
                                    #[trigger] diags@[i],
                                    severity,
                                    ws,
                                    we,
                                ) && diags@[i].start <= p < diags@[i].end;
                            if i < k {
                                if !flat_covers(old_flat, p) {
                                    assert(old_cs <= p < old_ce);
                                    assert(flat@[n0].start <= p < flat@[n0].end);
                                    assert(flat_covers(flat@, p));
                                }
                            } else {
                                assert(cur_start <= p < cur_end);
                            }
                        }
                    }
                } else {
                    // nothing changed at this step
                    if diag_covers_upto(diags@, severity, ws, we, k + 1, p) {
                        let i = choose|i: int|
                            0 <= i < k + 1 && diag_matches(#[trigger] diags@[i], severity, ws, we)
                                && diags@[i].start <= p < diags@[i].end;
                        assert(i < k);
                        assert(lhs_old);
                    }
                    if flat_covers(flat@, p) {
                        assert(flat_covers(old_flat, p));
                    }
                }
            }
        }
        k += 1;
    }
    let ghost pre_flat = flat@;
    proof {
        assert(forall|p: int|
            (flat_covers(pre_flat, p) || (active && cur_start <= p < cur_end))
                == diag_covers_upto(diags@, severity, ws, we, diags@.len() as int, p));
    }
    if active {
        let mut tags: Vec<u32> = Vec::new();
        tags.push(tag);
        proof {
            assert(tags@ =~= seq![tag]);
        }
        flat.push(FlatSpan { tags, start: cur_start, end: cur_end });
        proof {
            let n0 = pre_flat.len() as int;
            assert(flat@ == pre_flat.push(flat@[n0]));
            assert(forall|m: int| 0 <= m < n0 ==> #[trigger] flat@[m] == pre_flat[m]);
            assert(flat@[n0].start == cur_start && flat@[n0].end == cur_end);
        }
    }
    let out = unflatten(&flat);
    proof {
        assert forall|p: int|
            stack_at(out@, p) == (if diag_covers(diags@, severity, ws, we, p) {
                seq![tag]
            } else {
                Seq::<u32>::empty()
            }) by {
            assert(diag_covers(diags@, severity, ws, we, p) == diag_covers_upto(
                diags@,
                severity,
                ws,
                we,
                diags@.len() as int,
                p,
            ));
            if flat_covers(flat@, p) {
                let m = choose|m: int|
                    0 <= m < flat@.len() && (#[trigger] flat@[m]).start <= p < flat@[m].end;
                lemma_flat_at_cover_sorted(flat@, m, p);
                if m < pre_flat.len() {
                    assert(flat_covers(pre_flat, p));
                } else {
                    assert(active && cur_start <= p < cur_end);
                }
                assert(diag_covers_upto(diags@, severity, ws, we, diags@.len() as int, p));
                assert(diag_covers(diags@, severity, ws, we, p));
            } else {
                lemma_flat_at_not_covered(flat@, p);
                if diag_covers(diags@, severity, ws, we, p) {
                    assert(flat_covers(pre_flat, p) || (active && cur_start <= p < cur_end));
                    if flat_covers(pre_flat, p) {
                        let m = choose|m: int|
                            0 <= m < pre_flat.len() && (#[trigger] pre_flat[m]).start <= p
                                < pre_flat[m].end;
                        assert(flat@[m].start <= p < flat@[m].end);
                        assert(flat_covers(flat@, p));
                    } else {
                        assert(flat@[pre_flat.len() as int].start <= p
                            < flat@[pre_flat.len() as int].end);
                        assert(flat_covers(flat@, p));
                    }
                }
            }
        }
    }
    out
}

} // verus!
