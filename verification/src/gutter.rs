//! The gutter decorator: for each visible row and each configured gutter,
//! one render cell carrying its column offset, row, resolved style and
//! optional text, with gutter widths accumulating left to right.

use vstd::prelude::*;

use crate::sources::{severity_rank, severity_rank_of, Severity};
use crate::style::{spec_patch, Style, Theme};

verus! {

/// One rendered row of the viewport, for gutter purposes.
#[derive(Clone, Copy, Debug, PartialEq, Eq, Structural)]
pub struct LinePos {
    /// Whether this is the first visual row of its document line; a
    /// soft-wrap continuation row is not.
    pub first_visual_line: bool,
    /// The document line shown on this row.
    pub doc_line: usize,
    /// The row's offset from the top of the viewport.
    pub visual_line: u16,
    /// The character offset where this visual row starts.
    pub start_char_idx: usize,
}

/// The closed set of gutter kinds, drawn left to right in the order
/// configured.
#[derive(Clone, Copy, Debug, PartialEq, Eq, Structural)]
pub enum GutterKind {
    /// A one-column diagnostic marker.
    Diagnostics,
    /// A one-column blank separator.
    Spacer,
    /// Right-padded line numbers, wide enough for the last line.
    LineNumbers,
}

/// One render invocation: paint `text` (or just the style, for a marker
/// with no text) at the given column and row.
#[derive(Debug)]
pub struct GutterCell {
    pub column: usize,
    pub row: u16,
    pub style: Style,
    pub text: Option<String>,
}

/// The number of decimal digits of `n`.
pub open spec fn dec_digits(n: nat) -> nat
    decreases n,
{
    if n < 10 {
        1
    } else {
        1 + dec_digits(n / 10)
    }
}

/// The decimal digit character for `d`.
pub open spec fn digit_char(d: nat) -> char {
    if d == 0 {
        '0'
    } else if d == 1 {
        '1'
    } else if d == 2 {
        '2'
    } else if d == 3 {
        '3'
    } else if d == 4 {
        '4'
    } else if d == 5 {
        '5'
    } else if d == 6 {
        '6'
    } else if d == 7 {
        '7'
    } else if d == 8 {
        '8'
    } else {
        '9'
    }
}

/// The decimal representation of `n`, most significant digit first.
pub open spec fn dec_chars(n: nat) -> Seq<char>
    decreases n,
{
    if n < 10 {
        seq![digit_char(n)]
    } else {
        dec_chars(n / 10).push(digit_char(n % 10))
    }
}

/// The width of one gutter, in columns.
pub open spec fn gutter_width(kind: GutterKind, total_lines: nat) -> int {
    match kind {
        GutterKind::Diagnostics => 1,
        GutterKind::Spacer => 1,
        GutterKind::LineNumbers => dec_digits(total_lines) + 1int,
    }
}

/// The column where gutter `j` starts: the widths of the gutters before it,
/// summed.
pub open spec fn column_of(gs: Seq<GutterKind>, j: int, total_lines: nat) -> int
    decreases j,
{
    if j <= 0 {
        0
    } else {
        column_of(gs, j - 1, total_lines) + gutter_width(gs[j - 1], total_lines)
    }
}

/// The line is the cursor line of some selection range.
pub open spec fn is_selected(cursor_lines: Seq<usize>, doc_line: usize) -> bool {
    exists|i: int| 0 <= i < cursor_lines.len() && cursor_lines[i] == doc_line
}

/// The gutter style for a row: selected or not, first visual row or
/// soft-wrap continuation.
pub open spec fn base_gutter_style(theme: Theme, selected: bool, first: bool) -> Style {
    if selected {
        if first {
            theme.gutter_selected
        } else {
            theme.gutter_selected_virtual
        }
    } else {
        if first {
            theme.gutter
        } else {
            theme.gutter_virtual
        }
    }
}

/// The theme style for one severity's gutter marker.
pub open spec fn severity_style(theme: Theme, s: Severity) -> Style {
    match s {
        Severity::Hint => theme.hint,
        Severity::Info => theme.info,
        Severity::Warning => theme.warning,
        Severity::Error => theme.error,
    }
}

/// Some diagnostic sits on this line.
pub open spec fn line_has_diag(dl: Seq<(usize, Severity)>, line: usize) -> bool {
    exists|i: int| 0 <= i < dl.len() && (#[trigger] dl[i]).0 == line
}

/// `s` is the worst severity on the line.
pub open spec fn line_max_sev(dl: Seq<(usize, Severity)>, line: usize, s: Severity) -> bool {
    &&& exists|i: int| 0 <= i < dl.len() && (#[trigger] dl[i]).0 == line && dl[i].1 == s
    &&& forall|i: int|
        0 <= i < dl.len() && (#[trigger] dl[i]).0 == line ==> severity_rank(dl[i].1)
            <= severity_rank(s)
}

/// What one cell must show for its row and gutter kind.
pub open spec fn cell_ok(
    cell: GutterCell,
    line: LinePos,
    kind: GutterKind,
    gs: Seq<GutterKind>,
    j: int,
    cursor_lines: Seq<usize>,
    dl: Seq<(usize, Severity)>,
    theme: Theme,
    total_lines: nat,
) -> bool {
    let selected = is_selected(cursor_lines, line.doc_line);
    let base = base_gutter_style(theme, selected, line.first_visual_line);
    &&& cell.row == line.visual_line
    &&& cell.column == column_of(gs, j, total_lines)
    &&& match kind {
        GutterKind::Spacer => cell.style == base && cell.text is None,
        GutterKind::Diagnostics => {
            if line_has_diag(dl, line.doc_line) {
                &&& exists|s: Severity|
                    line_max_sev(dl, line.doc_line, s) && cell.style == spec_patch(
                        base,
                        severity_style(theme, s),
                    )
                &&& cell.text is Some
                &&& cell.text->0@ == seq!['!']
            } else {
                cell.style == base && cell.text is None
            }
        },
        GutterKind::LineNumbers => {
            if line.first_visual_line {
                &&& cell.style == base
                &&& cell.text is Some
                &&& cell.text->0@ == dec_chars((line.doc_line + 1) as nat)
            } else {
                cell.style == base && cell.text is None
            }
        },
    }
}

/// Relies on `String::push`: appends exactly the one character to the
/// string.
#[verifier::external_body]
fn push_char(s: &mut String, c: char)
    ensures
        final(s)@ == old(s)@.push(c),
{
    s.push(c);
}

/// The decimal digit character for `d`.
fn digit_char_of(d: usize) -> (r: char)
    requires
        d < 10,
    ensures
        r == digit_char(d as nat),
{
    if d == 0 {
        '0'
    } else if d == 1 {
        '1'
    } else if d == 2 {
        '2'
    } else if d == 3 {
        '3'
    } else if d == 4 {
        '4'
    } else if d == 5 {
        '5'
    } else if d == 6 {
        '6'
    } else if d == 7 {
        '7'
    } else if d == 8 {
        '8'
    } else {
        '9'
    }
}

/// The decimal representation of `n`.
fn dec_string(n: usize) -> (s: String)
    ensures
        s@ == dec_chars(n as nat),
    decreases n,
{
    if n < 10 {
        let mut s = String::new();
        push_char(&mut s, digit_char_of(n));
        proof {
            assert(s@ =~= dec_chars(n as nat));
        }
        s
    } else {
        let mut s = dec_string(n / 10);
        push_char(&mut s, digit_char_of(n % 10));
        s
    }
}

/// The number of decimal digits of `n`.
fn digits_of(n: usize) -> (r: usize)
    ensures
        r == dec_digits(n as nat),
    decreases n,
{
    if n < 10 {
        1
    } else {
        let rest = digits_of(n / 10);
        proof {
            crate::buffer::lemma_len_bounds(dec_chars((n / 10) as nat));
            lemma_dec_digits_small((n / 10) as nat);
        }
        rest + 1
    }
}

pub open spec fn pow10(k: nat) -> nat
    decreases k,
{
    if k == 0 {
        1
    } else {
        10 * pow10((k - 1) as nat)
    }
}

/// A number below the `k`-th power of ten has at most `k` digits.
pub proof fn lemma_dec_digits_bound(n: nat, k: nat)
    requires
        k >= 1,
        n < pow10(k),
    ensures
        dec_digits(n) <= k,
    decreases k,
{
    if n >= 10 {
        assert(pow10(1) == 10 * pow10(0));
        assert(pow10(0) == 1);
        assert(k >= 2) by {
            if k == 1 {
                assert(pow10(1) == 10);
            }
        }
        assert(pow10(k) == 10 * pow10((k - 1) as nat));
        assert(n / 10 < pow10((k - 1) as nat)) by (nonlinear_arith)
            requires
                n < 10 * pow10((k - 1) as nat),
        {}
        lemma_dec_digits_bound(n / 10, (k - 1) as nat);
    }
}

/// A number that fits in memory has at most 20 digits.
pub proof fn lemma_dec_digits_small(n: nat)
    requires
        n <= usize::MAX,
    ensures
        dec_digits(n) <= 20,
{
    reveal_with_fuel(pow10, 25);
    assert(pow10(20) == 100000000000000000000);
    lemma_dec_digits_bound(n, 20);
}

/// The width of one gutter, in columns.
fn gutter_width_of(kind: GutterKind, total_lines: usize) -> (r: usize)
    ensures
        r == gutter_width(kind, total_lines as nat),
        1 <= r <= 21,
{
    match kind {
        GutterKind::Diagnostics => 1,
        GutterKind::Spacer => 1,
        GutterKind::LineNumbers => {
            proof {
                lemma_dec_digits_small(total_lines as nat);
            }
            digits_of(total_lines) + 1
        },
    }
}

/// The worst severity among this line's diagnostics, if it has any.
#[verifier::loop_isolation(false)]
fn line_worst_severity(dl: &Vec<(usize, Severity)>, line: usize) -> (r: Option<Severity>)
    ensures
        r is Some <==> line_has_diag(dl@, line),
        r matches Some(s) ==> line_max_sev(dl@, line, s),
{
    let mut best: Option<Severity> = None;
    let mut i: usize = 0;
    while i < dl.len()
        invariant
            i <= dl.len(),
            best is Some <==> (exists|m: int| 0 <= m < i && (#[trigger] dl@[m]).0 == line),
            best matches Some(s) ==> (exists|m: int|
                0 <= m < i && (#[trigger] dl@[m]).0 == line && dl@[m].1 == s) && (forall|m: int|
                0 <= m < i && (#[trigger] dl@[m]).0 == line ==> severity_rank(dl@[m].1)
                    <= severity_rank(s)),
        decreases dl.len() - i,
    {
        let (l, s) = dl[i];
        if l == line {
            let take = match best {
                None => true,
                Some(b) => severity_rank_of(s) > severity_rank_of(b),
            };
            if take {
                best = Some(s);
            }
        }
        i += 1;
    }
    best
}

/// Decorate the visible rows: for each row and each configured gutter, in
/// that order, one cell at the gutter's accumulated column offset, styled
/// by the 2-by-2 choice of selected against first-visual-row, patched with
/// the gutter's own contribution — a diagnostic marker styled by the
/// line's worst severity, or a line number on a line's first visual row.
#[verifier::loop_isolation(false)]
pub fn decorate(
    lines: &Vec<LinePos>,
    gutters: &Vec<GutterKind>,
    cursor_lines: &Vec<usize>,
    diag_lines: &Vec<(usize, Severity)>,
    theme: &Theme,
    total_lines: usize,
) -> (out: Vec<Vec<GutterCell>>)
    requires
        gutters@.len() <= 1000,
        forall|i: int| 0 <= i < lines@.len() ==> (#[trigger] lines@[i]).doc_line < usize::MAX,
    ensures
        out@.len() == lines@.len(),
        forall|i: int, j: int|
            0 <= i < lines@.len() && 0 <= j < gutters@.len() ==> #[trigger] cell_ok(
                out@[i]@[j],
                lines@[i],
                gutters@[j],
                gutters@,
                j,
                cursor_lines@,
                diag_lines@,
                *theme,
                total_lines as nat,
            ),
        forall|i: int| 0 <= i < lines@.len() ==> (#[trigger] out@[i])@.len() == gutters@.len(),
{
    let mut out: Vec<Vec<GutterCell>> = Vec::new();
    let mut i: usize = 0;
    while i < lines.len()
        invariant
            i <= lines.len(),
            out@.len() == i as int,
            forall|i2: int| 0 <= i2 < i ==> (#[trigger] out@[i2])@.len() == gutters@.len(),
            forall|i2: int, j: int|
                0 <= i2 < i && 0 <= j < gutters@.len() ==> #[trigger] cell_ok(
                    out@[i2]@[j],
                    lines@[i2],
                    gutters@[j],
                    gutters@,
                    j,
                    cursor_lines@,
                    diag_lines@,
                    *theme,
                    total_lines as nat,
                ),
        decreases lines.len() - i,
    {
        let line = lines[i];
        let selected = {
            let mut found = false;
            let mut c: usize = 0;
            while c < cursor_lines.len()
                invariant
                    c <= cursor_lines.len(),
                    found == (exists|m: int|
                        0 <= m < c && cursor_lines@[m] == line.doc_line),
                decreases cursor_lines.len() - c,
            {
                if cursor_lines[c] == line.doc_line {
                    found = true;
                }
                c += 1;
            }
            found
        };
        proof {
            assert(selected == is_selected(cursor_lines@, line.doc_line));
        }
        let base = {
            if selected {
                if line.first_visual_line {
                    theme.gutter_selected
                } else {
                    theme.gutter_selected_virtual
                }
            } else {
                if line.first_visual_line {
                    theme.gutter
                } else {
                    theme.gutter_virtual
                }
            }
        };
        let mut row_cells: Vec<GutterCell> = Vec::new();
        let mut col: usize = 0;
        let mut j: usize = 0;
        while j < gutters.len()
            invariant
                j <= gutters.len(),
                row_cells@.len() == j as int,
                col == column_of(gutters@, j as int, total_lines as nat),
                col <= 21 * j,
                forall|j2: int|
                    0 <= j2 < j ==> #[trigger] cell_ok(
                        row_cells@[j2],
                        lines@[i as int],
                        gutters@[j2],
                        gutters@,
                        j2,
                        cursor_lines@,
                        diag_lines@,
                        *theme,
                        total_lines as nat,
                    ),
            decreases gutters.len() - j,
        {
            let kind = gutters[j];
            let cell = match kind {
                GutterKind::Spacer => GutterCell {
                    column: col,
                    row: line.visual_line,
                    style: base,
                    text: None,
                },
                GutterKind::Diagnostics => {
                    match line_worst_severity(diag_lines, line.doc_line) {
                        Some(s) => {
                            let sev_style = match s {
                                Severity::Hint => theme.hint,
                                Severity::Info => theme.info,
                                Severity::Warning => theme.warning,
                                Severity::Error => theme.error,
                            };
                            let mut marker = String::new();
                            push_char(&mut marker, '!');
                            proof {
                                assert(marker@ =~= seq!['!']);
                            }
                            GutterCell {
                                column: col,
                                row: line.visual_line,
                                style: base.patch(sev_style),
                                text: Some(marker),
                            }
                        },
                        None => GutterCell {
                            column: col,
                            row: line.visual_line,
                            style: base,
                            text: None,
                        },
                    }
                },
                GutterKind::LineNumbers => {
                    if line.first_visual_line {
                        GutterCell {
                            column: col,
                            row: line.visual_line,
                            style: base,
                            text: Some(dec_string(line.doc_line + 1)),
                        }
                    } else {
                        GutterCell {
                            column: col,
                            row: line.visual_line,
                            style: base,
                            text: None,
                        }
                    }
                },
            };
            row_cells.push(cell);
            col = col + gutter_width_of(kind, total_lines);
            j += 1;
        }
        out.push(row_cells);
        i += 1;
    }
    out
}

} // verus!
