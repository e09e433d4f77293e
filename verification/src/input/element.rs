use vstd::prelude::*;
use vstd::string::StrSliceExecFns;
use vstd::string::StringSliceAdditionalSpecFns;

verus! {

// ---------------------------------------------------------------------------
// The line table: a text is a sequence of lines joined by one `\n` each, and a
// line is known here by its length in bytes.
// ---------------------------------------------------------------------------

/// Byte offset at which line `i` starts when lines of the byte lengths `lens` are
/// joined with one `\n` between consecutive lines.
pub open spec fn line_start(lens: Seq<usize>, i: int) -> int
    decreases i,
{
    if i <= 0 {
        0
    } else {
        line_start(lens, i - 1) + lens[i - 1] + 1
    }
}

/// Byte offset of the end of line `i` (the offset just after its last byte).
pub open spec fn line_end(lens: Seq<usize>, i: int) -> int {
    line_start(lens, i) + lens[i]
}

/// The first line, at or after line `i`, whose end is not before `offset`; the
/// number of lines when there is none.
pub open spec fn first_line_from(lens: Seq<usize>, offset: int, i: int) -> int
    decreases lens.len() - i,
{
    if i >= lens.len() {
        lens.len() as int
    } else if offset <= line_end(lens, i) {
        i
    } else {
        first_line_from(lens, offset, i + 1)
    }
}

/// The line on which byte offset `offset` is placed: the first line whose end is
/// not before it (the number of lines when the offset lies beyond the text).
pub open spec fn line_of(lens: Seq<usize>, offset: int) -> int {
    first_line_from(lens, offset, 0)
}

/// The line table fits in `usize`: every line start, including the one after
/// the last line, is representable.
pub open spec fn fits_usize(lens: Seq<usize>) -> bool {
    line_start(lens, lens.len() as int) <= usize::MAX
}

/// Line starts grow with the line index.
pub proof fn lemma_line_start_monotone(lens: Seq<usize>, i: int, j: int)
    requires
        0 <= i <= j <= lens.len(),
    ensures
        line_start(lens, i) <= line_start(lens, j),
        i < j ==> line_end(lens, i) < line_start(lens, j),
    decreases j - i,
{
    if i < j {
        lemma_line_start_monotone(lens, i, j - 1);
    }
}

/// `first_line_from` never goes back before its starting line.
pub proof fn lemma_first_line_from_bounds(lens: Seq<usize>, offset: int, i: int)
    requires
        0 <= i <= lens.len(),
    ensures
        i <= first_line_from(lens, offset, i) <= lens.len(),
    decreases lens.len() - i,
{
    if i < lens.len() && !(offset <= line_end(lens, i)) {
        lemma_first_line_from_bounds(lens, offset, i + 1);
    }
}

/// A line `i` at or after `j` reaches `offset` exactly when it is at or after
/// the first line from `j` that does.
pub proof fn lemma_reaches_iff(lens: Seq<usize>, offset: int, j: int, i: int)
    requires
        0 <= j <= i < lens.len(),
    ensures
        (offset <= line_end(lens, i)) <==> (first_line_from(lens, offset, j) <= i),
    decreases i - j,
{
    if offset <= line_end(lens, j) {
        if j < i {
            lemma_line_start_monotone(lens, j, i);
        }
    } else {
        if j == i {
            lemma_first_line_from_bounds(lens, offset, j + 1);
        } else {
            lemma_reaches_iff(lens, offset, j + 1, i);
        }
    }
}

/// A line reaches `offset` exactly when it is at or after `line_of(offset)`; and
/// an offset placed on a line is not before that line's start.
pub proof fn lemma_line_of(lens: Seq<usize>, offset: int)
    ensures
        0 <= line_of(lens, offset) <= lens.len(),
        forall|i: int|
            0 <= i < lens.len() ==> ((offset <= #[trigger] line_end(lens, i)) <==> line_of(
                lens,
                offset,
            ) <= i),
        line_of(lens, offset) < lens.len() ==> line_start(lens, line_of(lens, offset)) <= offset
            || offset < 0,
{
    lemma_first_line_from_bounds(lens, offset, 0);
    assert forall|i: int|
        0 <= i < lens.len() implies ((offset <= #[trigger] line_end(lens, i)) <==> line_of(
        lens,
        offset,
    ) <= i) by {
        lemma_reaches_iff(lens, offset, 0, i);
    }
    let l = line_of(lens, offset);
    if 0 < l < lens.len() {
        lemma_reaches_iff(lens, offset, 0, l - 1);
    }
}

/// A position in a text laid out in lines: a line index and a byte column in it.
#[derive(Clone, Copy, Debug, PartialEq, Eq)]
pub struct LinePosition {
    pub line: usize,
    pub column: usize,
}

/// Where byte offset `offset` lies among lines of the lengths `lens`: on the first
/// line whose end is not before it, at the column `offset - line_start`; nowhere
/// when the offset lies beyond the end of the last line.
pub open spec fn position_of(lens: Seq<usize>, offset: int) -> Option<LinePosition> {
    let l = line_of(lens, offset);
    if l < lens.len() {
        Some(LinePosition { line: l as usize, column: (offset - line_start(lens, l)) as usize })
    } else {
        None
    }
}

/// Finds the line on which byte offset `offset` lies and its column there.
///
/// Lines are walked in order and the offset is placed on the first one that can
/// show it, that is whose end is not before the offset; this is the question the
/// cursor and the selection ends ask of each laid-out line.
pub fn locate_offset(lens: &Vec<usize>, offset: usize) -> (r: Option<LinePosition>)
    requires
        fits_usize(lens@),
    ensures
        r == position_of(lens@, offset as int),
        r matches Some(p) ==> p.line < lens.len() && p.column <= lens@[p.line as int]
            && line_start(lens@, p.line as int) + p.column == offset,
{
    proof {
        lemma_line_of(lens@, offset as int);
    }
    let n = lens.len();
    let mut i: usize = 0;
    let mut start: usize = 0;
    while i < n
        invariant
            n == lens.len(),
            i <= n,
            fits_usize(lens@),
            start == line_start(lens@, i as int),
            start <= offset,
            forall|k: int| 0 <= k < i ==> offset > #[trigger] line_end(lens@, k),
        decreases n - i,
    {
        proof {
            lemma_line_start_monotone(lens@, i as int, n as int);
            lemma_line_start_monotone(lens@, i as int + 1, n as int);
        }
        let len = lens[i];
        if offset <= start + len {
            proof {
                lemma_line_of(lens@, offset as int);
                if line_of(lens@, offset as int) < i {
                    let l = line_of(lens@, offset as int);
                    assert(offset > line_end(lens@, l));
                }
            }
            return Some(LinePosition { line: i, column: offset - start });
        }
        start = start + len + 1;
        i = i + 1;
    }
    proof {
        lemma_line_of(lens@, offset as int);
        if line_of(lens@, offset as int) < n {
            let l = line_of(lens@, offset as int);
            assert(offset > line_end(lens@, l));
        }
    }
    None
}


/// The part of one line that a selection covers: bytes `start..end` of line `line`.
#[derive(Clone, Copy, Debug, PartialEq, Eq)]
pub struct SelectionSegment {
    pub line: usize,
    pub start: usize,
    pub end: usize,
}

/// The segment of line `i` that the selection of bytes `s..e` covers: it starts
/// at the selection's start on the line where that lies and at the line's start
/// after it, and it ends at the selection's end on the line where that lies and
/// at the line's end before it.
pub open spec fn segment_at(lens: Seq<usize>, s: int, e: int, i: int) -> SelectionSegment {
    SelectionSegment {
        line: i as usize,
        start: if i == line_of(lens, s) {
            (s - line_start(lens, i)) as usize
        } else {
            0
        },
        end: if i == line_of(lens, e) {
            (e - line_start(lens, i)) as usize
        } else {
            lens[i]
        },
    }
}

/// The segments of the selection of bytes `s..e` (with `s <= e`): one for each
/// line from the line of `s` to the line of `e`, or to the last line when `e`
/// lies beyond the text; none when `s` lies beyond the text.
pub open spec fn segments_between(lens: Seq<usize>, s: int, e: int) -> Seq<SelectionSegment> {
    let a = line_of(lens, s);
    let b = line_of(lens, e);
    let last = if b < lens.len() {
        b
    } else {
        lens.len() - 1
    };
    if a < lens.len() {
        Seq::new((last - a + 1) as nat, |k: int| segment_at(lens, s, e, a + k))
    } else {
        Seq::empty()
    }
}

/// The selection that is painted: while a non-empty composition (IME marked
/// range) is active only a caret at its end is, otherwise the selected range.
pub open spec fn painted_selection(
    selected_start: usize,
    selected_end: usize,
    marked: Option<(usize, usize)>,
) -> (usize, usize) {
    match marked {
        Some((marked_start, marked_end)) => {
            if marked_start < marked_end {
                (marked_end, marked_end)
            } else {
                (selected_start, selected_end)
            }
        },
        None => (selected_start, selected_end),
    }
}

/// The segments that paint the selection `selected_start..selected_end` (either
/// end may be the larger), with the composition `marked` taken into account.
pub open spec fn selection_segments_spec(
    lens: Seq<usize>,
    selected_start: usize,
    selected_end: usize,
    marked: Option<(usize, usize)>,
) -> Seq<SelectionSegment> {
    let (ps, pe) = painted_selection(selected_start, selected_end, marked);
    if ps == pe {
        Seq::empty()
    } else if ps < pe {
        segments_between(lens, ps as int, pe as int)
    } else {
        segments_between(lens, pe as int, ps as int)
    }
}

/// Splits the selection into the per-line segments that are painted.
///
/// While a non-empty composition is active, or when the selection is empty,
/// nothing is painted. Otherwise the lines are walked in order: a line gets a
/// segment when the selection's start or end can be placed on it, running from
/// that start (or the line's start) to that end (or the line's end), and the walk
/// stops at the line that holds both.
pub fn selection_segments(
    lens: &Vec<usize>,
    selected_start: usize,
    selected_end: usize,
    marked: Option<(usize, usize)>,
) -> (r: Vec<SelectionSegment>)
    requires
        fits_usize(lens@),
    ensures
        r@ == selection_segments_spec(lens@, selected_start, selected_end, marked),
{
    let mut sel_start = selected_start;
    let mut sel_end = selected_end;
    if let Some((marked_start, marked_end)) = marked {
        if marked_start < marked_end {
            sel_start = marked_end;
            sel_end = marked_end;
        }
    }
    let mut res: Vec<SelectionSegment> = Vec::new();
    if sel_start == sel_end {
        return res;
    }
    let (s, e) = if sel_start < sel_end {
        (sel_start, sel_end)
    } else {
        (sel_end, sel_start)
    };
    let ghost a = line_of(lens@, s as int);
    let ghost b = line_of(lens@, e as int);
    proof {
        lemma_line_of(lens@, s as int);
        lemma_line_of(lens@, e as int);
        if b < lens.len() {
            assert(e <= line_end(lens@, b));
        }
    }
    let n = lens.len();
    let mut i: usize = 0;
    let mut start: usize = 0;
    while i < n
        invariant_except_break
            i <= b,
            res@ == Seq::new(
                (if i > a {
                    i - a
                } else {
                    0
                }) as nat,
                |k: int| segment_at(lens@, s as int, e as int, a + k),
            ),
        invariant
            n == lens.len(),
            i <= n,
            fits_usize(lens@),
            s < e,
            a == line_of(lens@, s as int),
            b == line_of(lens@, e as int),
            0 <= a <= b <= n,
            start == line_start(lens@, i as int),
            forall|j: int|
                0 <= j < n ==> ((s <= #[trigger] line_end(lens@, j)) <==> a <= j),
            forall|j: int|
                0 <= j < n ==> ((e <= #[trigger] line_end(lens@, j)) <==> b <= j),
            a < n ==> line_start(lens@, a) <= s,
            b < n ==> line_start(lens@, b) <= e,
        ensures
            res@ == segments_between(lens@, s as int, e as int),
        decreases n - i,
    {
        proof {
            lemma_line_start_monotone(lens@, i as int, n as int);
            lemma_line_start_monotone(lens@, i as int + 1, n as int);
            if a < i {
                lemma_line_start_monotone(lens@, a, i as int);
            }
        }
        let len = lens[i];
        let start_here = s.saturating_sub(start) <= len;
        let end_here = e.saturating_sub(start) <= len;
        assert(start_here == (s <= line_end(lens@, i as int)));
        assert(end_here == (e <= line_end(lens@, i as int)));
        if start_here || end_here {
            let seg_start = if start_here {
                s.saturating_sub(start)
            } else {
                0
            };
            let seg_end = if end_here {
                e.saturating_sub(start)
            } else {
                len
            };
            let seg = SelectionSegment { line: i, start: seg_start, end: seg_end };
            assert(seg == segment_at(lens@, s as int, e as int, i as int));
            res.push(seg);
        }
        assert(res@ =~= Seq::new(
            (if i + 1 > a {
                i + 1 - a
            } else {
                0
            }) as nat,
            |k: int| segment_at(lens@, s as int, e as int, a + k),
        ));
        if start_here && end_here {
            assert(res@ =~= segments_between(lens@, s as int, e as int));
            break;
        }
        start = start + len + 1;
        i = i + 1;
    }
    proof {
        if i == n {
            assert(res@ =~= segments_between(lens@, s as int, e as int));
        }
    }
    res
}


/// Where the cursor and the two ends of the selection lie among the lines, and
/// whether the view has to follow them.
pub struct CursorLayout {
    /// Position of the cursor; its line is the current line.
    pub cursor: Option<LinePosition>,
    /// Position of the selection's start (of the composition's end while one is active).
    pub selection_start: Option<LinePosition>,
    /// Position of the selection's end (of the composition's end while one is active).
    pub selection_end: Option<LinePosition>,
    /// The cursor or the selection changed since the last paint.
    pub changed: bool,
}

/// The selection that the cursor layout follows: while a composition (IME marked
/// range) is active, a caret at its end; otherwise the selected range.
pub open spec fn followed_selection(
    selected_start: usize,
    selected_end: usize,
    marked: Option<(usize, usize)>,
) -> (usize, usize) {
    match marked {
        Some((_marked_start, marked_end)) => (marked_end, marked_end),
        None => (selected_start, selected_end),
    }
}

/// The cursor or the followed selection differs from the one last painted (or
/// nothing was painted yet).
pub open spec fn layout_changed(
    last_cursor: Option<usize>,
    cursor: usize,
    last_selection: Option<(usize, usize)>,
    selection: (usize, usize),
) -> bool {
    last_cursor != Some(cursor) || last_selection != Some(selection)
}

/// Repainting with nothing edited reports no change, so the view does not
/// scroll: when the cursor and the selection are those last painted and no
/// composition is active, the layout's `changed` is false.
pub proof fn law_unchanged_layout_does_not_scroll(
    cursor: usize,
    selected_start: usize,
    selected_end: usize,
)
    ensures
        !layout_changed(
            Some(cursor),
            cursor,
            Some((selected_start, selected_end)),
            followed_selection(selected_start, selected_end, None),
        ),
{
}

/// Places the cursor and the (followed) selection on the lines.
///
/// `last_cursor` and `last_selection` are the values seen at the last paint; the
/// layout reports a change when either differs from the current one.
pub fn cursor_layout(
    lens: &Vec<usize>,
    cursor: usize,
    selected_start: usize,
    selected_end: usize,
    marked: Option<(usize, usize)>,
    last_cursor: Option<usize>,
    last_selection: Option<(usize, usize)>,
) -> (r: CursorLayout)
    requires
        fits_usize(lens@),
    ensures
        r.cursor == position_of(lens@, cursor as int),
        r.selection_start == position_of(
            lens@,
            followed_selection(selected_start, selected_end, marked).0 as int,
        ),
        r.selection_end == position_of(
            lens@,
            followed_selection(selected_start, selected_end, marked).1 as int,
        ),
        r.changed == layout_changed(
            last_cursor,
            cursor,
            last_selection,
            followed_selection(selected_start, selected_end, marked),
        ),
{
    let (sel_start, sel_end) = match marked {
        Some((_marked_start, marked_end)) => (marked_end, marked_end),
        None => (selected_start, selected_end),
    };
    let cursor_moved = match last_cursor {
        Some(last) => last != cursor,
        None => true,
    };
    let selection_changed = match last_selection {
        Some((last_start, last_end)) => last_start != sel_start || last_end != sel_end,
        None => true,
    };
    CursorLayout {
        cursor: locate_offset(lens, cursor),
        selection_start: locate_offset(lens, sel_start),
        selection_end: locate_offset(lens, sel_end),
        changed: cursor_moved || selection_changed,
    }
}

// ---------------------------------------------------------------------------
// Splitting a text into lines.
// ---------------------------------------------------------------------------

/// The byte lengths of the lines of the bytes `b`, split at each `\n` (byte 10):
/// a text with `k` newlines has `k + 1` lines, the last possibly empty.
pub open spec fn line_lens(b: Seq<u8>) -> Seq<usize>
    decreases b.len(),
{
    if b.len() == 0 {
        seq![0usize]
    } else {
        let p = line_lens(b.drop_last());
        if b.last() == 10u8 {
            p.push(0usize)
        } else {
            p.update(p.len() - 1, (p.last() + 1) as usize)
        }
    }
}

/// Appending a line leaves the starts of the lines before it unchanged.
proof fn lemma_line_start_push(lens: Seq<usize>, x: usize, i: int)
    requires
        0 <= i <= lens.len(),
    ensures
        line_start(lens.push(x), i) == line_start(lens, i),
    decreases i,
{
    if i > 0 {
        lemma_line_start_push(lens, x, i - 1);
    }
}

/// Changing the last line leaves the starts of all lines unchanged.
proof fn lemma_line_start_update_last(lens: Seq<usize>, x: usize, i: int)
    requires
        lens.len() > 0,
        0 <= i < lens.len(),
    ensures
        line_start(lens.update(lens.len() - 1, x), i) == line_start(lens, i),
    decreases i,
{
    if i > 0 {
        lemma_line_start_update_last(lens, x, i - 1);
    }
}

/// The lines of a text, joined by one newline each, span exactly its bytes: the
/// start past the last line is the byte length plus one, every line is at least
/// one line long, and no line is longer than the text.
pub proof fn law_lines_span_text(b: Seq<u8>)
    requires
        b.len() < usize::MAX,
    ensures
        line_lens(b).len() >= 1,
        line_start(line_lens(b), line_lens(b).len() as int) == b.len() + 1,
        forall|k: int| 0 <= k < line_lens(b).len() ==> #[trigger] line_lens(b)[k] <= b.len(),
    decreases b.len(),
{
    if b.len() == 0 {
        assert(line_start(line_lens(b), 0) == 0);
    } else {
        let p = line_lens(b.drop_last());
        law_lines_span_text(b.drop_last());
        if b.last() == 10u8 {
            lemma_line_start_push(p, 0usize, p.len() as int);
            let q = p.push(0usize);
            assert(line_start(q, q.len() as int) == line_start(q, p.len() as int) + q[p.len() as int]
                + 1);
            assert forall|k: int| 0 <= k < q.len() implies #[trigger] q[k] <= b.len() by {
                if k != q.len() - 1 {
                    assert(q[k] == p[k]);
                }
            }
        } else {
            let q = p.update(p.len() - 1, (p.last() + 1) as usize);
            lemma_line_start_update_last(p, (p.last() + 1) as usize, p.len() - 1);
            assert(line_start(q, q.len() as int) == line_start(q, q.len() - 1) + q[q.len() - 1]
                + 1);
            assert(line_start(p, p.len() as int) == line_start(p, p.len() - 1) + p[p.len() - 1]
                + 1);
            assert forall|k: int| 0 <= k < q.len() implies #[trigger] q[k] <= b.len() by {
                if k != q.len() - 1 {
                    assert(q[k] == p[k]);
                }
            }
        }
    }
}

/// Number of newline bytes (byte 10) in `b`.
pub open spec fn newline_count(b: Seq<u8>) -> int
    decreases b.len(),
{
    if b.len() == 0 {
        0
    } else {
        newline_count(b.drop_last()) + if b.last() == 10u8 {
            1int
        } else {
            0int
        }
    }
}

/// Lines are split exactly at the newlines: there is one line more than there
/// are newline bytes, the byte right after each line but the last is a newline,
/// and no line holds a newline byte.
pub proof fn law_lines_split_at_newlines(b: Seq<u8>)
    requires
        b.len() < usize::MAX,
    ensures
        line_lens(b).len() == 1 + newline_count(b),
        forall|k: int|
            0 <= k < line_lens(b).len() - 1 ==> b[#[trigger] line_end(line_lens(b), k)] == 10u8,
        forall|k: int, p: int|
            #![trigger b[p], line_start(line_lens(b), k)]
            0 <= k < line_lens(b).len() && line_start(line_lens(b), k) <= p < line_end(
                line_lens(b),
                k,
            ) ==> b[p] != 10u8,
    decreases b.len(),
{
    law_lines_span_text(b);
    let l = line_lens(b);
    if b.len() == 0 {
        assert(l =~= seq![0usize]);
        assert forall|k: int, p: int|
            #![trigger b[p], line_start(l, k)]
            0 <= k < l.len() && line_start(l, k) <= p < line_end(l, k) implies b[p] != 10u8 by {
            assert(line_start(l, 0) == 0);
        }
    } else {
        let c = b.drop_last();
        let q = line_lens(c);
        let n = q.len() as int;
        law_lines_split_at_newlines(c);
        law_lines_span_text(c);
        assert(line_start(q, n) == line_start(q, n - 1) + q[n - 1] + 1);
        if b.last() == 10u8 {
            assert(l == q.push(0usize));
            assert forall|k: int| 0 <= k <= n implies #[trigger] line_start(l, k) == line_start(
                q,
                k,
            ) by {
                lemma_line_start_push(q, 0usize, k);
            }
            assert forall|k: int| 0 <= k < l.len() - 1 implies b[#[trigger] line_end(l, k)]
                == 10u8 by {
                assert(l[k] == q[k]);
                if k < n - 1 {
                    lemma_line_start_monotone(q, k, n - 1);
                    lemma_line_start_monotone(q, 0, k);
                    assert(b[line_end(q, k)] == c[line_end(q, k)]);
                }
            }
            assert forall|k: int, p: int|
                #![trigger b[p], line_start(l, k)]
                0 <= k < l.len() && line_start(l, k) <= p < line_end(l, k) implies b[p] != 10u8 by {
                if k < n {
                    assert(l[k] == q[k]);
                    lemma_line_start_monotone(q, k, n - 1);
                    lemma_line_start_monotone(q, 0, k);
                    assert(b[p] == c[p]);
                }
            }
        } else {
            let x = (q[n - 1] + 1) as usize;
            assert(l == q.update(n - 1, x));
            assert forall|k: int| 0 <= k < n implies #[trigger] line_start(l, k) == line_start(
                q,
                k,
            ) by {
                lemma_line_start_update_last(q, x, k);
            }
            assert forall|k: int| 0 <= k < l.len() - 1 implies b[#[trigger] line_end(l, k)]
                == 10u8 by {
                assert(l[k] == q[k]);
                lemma_line_start_monotone(q, k, n - 1);
                lemma_line_start_monotone(q, 0, k);
                assert(b[line_end(q, k)] == c[line_end(q, k)]);
            }
            assert forall|k: int, p: int|
                #![trigger b[p], line_start(l, k)]
                0 <= k < l.len() && line_start(l, k) <= p < line_end(l, k) implies b[p] != 10u8 by {
                lemma_line_start_monotone(q, 0, k);
                if k < n - 1 {
                    assert(l[k] == q[k]);
                    lemma_line_start_monotone(q, k + 1, n);
                    assert(b[p] == c[p]);
                } else {
                    if p < c.len() {
                        assert(b[p] == c[p]);
                    }
                }
            }
        }
    }
}

/// Splits a text into its lines at each `\n` and returns their byte lengths.
pub fn line_lengths(text: &str) -> (r: Vec<usize>)
    ensures
        r@ == line_lens(text.spec_bytes()),
        r.len() >= 1,
{
    let bytes = text.as_bytes();
    let mut lens: Vec<usize> = Vec::new();
    lens.push(0);
    let mut i: usize = 0;
    assert(bytes@.take(0) =~= Seq::<u8>::empty());
    while i < bytes.len()
        invariant
            i <= bytes@.len(),
            bytes@ == text.spec_bytes(),
            lens@ == line_lens(bytes@.take(i as int)),
            lens.len() >= 1,
            forall|k: int| 0 <= k < lens.len() ==> #[trigger] lens@[k] <= i,
        decreases bytes.len() - i,
    {
        assert(bytes@.take(i + 1).drop_last() =~= bytes@.take(i as int));
        if bytes[i] == 10u8 {
            lens.push(0);
        } else {
            let k = lens.len() - 1;
            let v = lens[k];
            lens.set(k, v + 1);
        }
        i = i + 1;
    }
    assert(bytes@.take(i as int) =~= bytes@);
    lens
}

// ---------------------------------------------------------------------------
// Which byte ranges of the text the syntax highlighter is asked about.
// ---------------------------------------------------------------------------

/// The byte ranges handed to the highlighter: the lines before `visible_start`
/// are skipped and their bytes (one newline each included) counted in
/// `skipped_offset`; each line from `visible_start` through `visible_end`
/// (inclusive) gets its bytes and one newline.
pub struct HighlightLayout {
    pub skipped_offset: usize,
    pub line_ranges: Vec<(usize, usize)>,
}

/// Number of lines whose ranges are handed to the highlighter.
pub open spec fn highlighted_line_count(n: int, visible_start: int, visible_end: int) -> int {
    if visible_start < n && visible_start <= visible_end {
        if visible_end + 1 < n {
            visible_end + 1 - visible_start
        } else {
            n - visible_start
        }
    } else {
        0
    }
}

/// The ranges of the lines handed to the highlighter: line `visible_start + k`
/// spans from its start to the start of the next line.
pub open spec fn highlighted_ranges(
    lens: Seq<usize>,
    visible_start: int,
    visible_end: int,
) -> Seq<(usize, usize)> {
    Seq::new(
        highlighted_line_count(lens.len() as int, visible_start, visible_end) as nat,
        |k: int|
            (
                line_start(lens, visible_start + k) as usize,
                line_start(lens, visible_start + k + 1) as usize,
            ),
    )
}

/// Offset of the first byte handed to the highlighter: the bytes of the lines
/// before `visible_start` (all lines when there are fewer).
pub open spec fn skipped_offset_of(lens: Seq<usize>, visible_start: int) -> int {
    if visible_start < lens.len() {
        line_start(lens, visible_start)
    } else {
        line_start(lens, lens.len() as int)
    }
}

/// Computes, from the lines' byte lengths, the skipped offset and the ranges of
/// the lines `visible_start..=visible_end` that the highlighter is asked about.
pub fn highlight_line_ranges(lens: &Vec<usize>, visible_start: usize, visible_end: usize) -> (r:
    HighlightLayout)
    requires
        fits_usize(lens@),
    ensures
        r.skipped_offset == skipped_offset_of(lens@, visible_start as int),
        r.line_ranges@ == highlighted_ranges(lens@, visible_start as int, visible_end as int),
{
    let n = lens.len();
    let mut offset: usize = 0;
    let mut skipped: usize = 0;
    let mut ranges: Vec<(usize, usize)> = Vec::new();
    let mut ix: usize = 0;
    while ix < n
        invariant_except_break
            ix <= visible_start ==> ranges.len() == 0 && skipped == offset,
            ix > visible_start ==> ix - visible_start == ranges.len() && ix <= visible_end + 1,
        invariant
            n == lens.len(),
            ix <= n,
            fits_usize(lens@),
            offset == line_start(lens@, ix as int),
            skipped == skipped_offset_of(lens@, visible_start as int) || ix <= visible_start,
            forall|k: int|
                0 <= k < ranges.len() ==> #[trigger] ranges@[k] == highlighted_ranges(
                    lens@,
                    visible_start as int,
                    visible_end as int,
                )[k],
            ranges.len() <= highlighted_line_count(n as int, visible_start as int, visible_end as int),
        ensures
            skipped == skipped_offset_of(lens@, visible_start as int),
            ranges.len() == highlighted_line_count(n as int, visible_start as int, visible_end as int),
        decreases n - ix,
    {
        proof {
            lemma_line_start_monotone(lens@, ix as int + 1, n as int);
        }
        let line_len = lens[ix] + 1;
        if ix < visible_start {
            offset = offset + line_len;
            skipped = offset;
            ix = ix + 1;
            continue ;
        }
        if ix > visible_end {
            break;
        }
        let range = (offset, offset + line_len);
        ranges.push(range);
        offset = range.1;
        ix = ix + 1;
    }
    assert(ranges@ =~= highlighted_ranges(lens@, visible_start as int, visible_end as int));
    HighlightLayout { skipped_offset: skipped, line_ranges: ranges }
}

/// Splits the text into lines and computes the highlighter's ranges for the
/// lines `visible_start..=visible_end`.
pub fn highlight_layout(text: &str, visible_start: usize, visible_end: usize) -> (r:
    HighlightLayout)
    requires
        text.spec_bytes().len() < usize::MAX,
    ensures
        r.skipped_offset == skipped_offset_of(line_lens(text.spec_bytes()), visible_start as int),
        r.line_ranges@ == highlighted_ranges(
            line_lens(text.spec_bytes()),
            visible_start as int,
            visible_end as int,
        ),
{
    let lens = line_lengths(text);
    proof {
        law_lines_span_text(text.spec_bytes());
    }
    highlight_line_ranges(&lens, visible_start, visible_end)
}


/// A diagnostic marker's range is styled when it starts at or after the skipped
/// offset and either starts at or after `visible_start` or ends at or before
/// `visible_end` (these two bounds are the visible line indices, compared as they
/// are with the marker's byte offsets).
pub open spec fn marker_shown(
    marker: Option<(usize, usize)>,
    skipped_offset: usize,
    visible_start: usize,
    visible_end: usize,
) -> bool {
    match marker {
        Some((start, end)) => start >= skipped_offset && (start >= visible_start || end
            <= visible_end),
        None => false,
    }
}

/// Indices, in order, of the first `k` markers that are styled.
pub open spec fn shown_markers(
    markers: Seq<Option<(usize, usize)>>,
    skipped_offset: usize,
    visible_start: usize,
    visible_end: usize,
    k: int,
) -> Seq<usize>
    decreases k,
{
    if k <= 0 {
        Seq::empty()
    } else {
        let p = shown_markers(markers, skipped_offset, visible_start, visible_end, k - 1);
        if marker_shown(markers[k - 1], skipped_offset, visible_start, visible_end) {
            p.push((k - 1) as usize)
        } else {
            p
        }
    }
}

/// Picks, in order, the diagnostic markers whose ranges are styled.
pub fn visible_markers(
    markers: &Vec<Option<(usize, usize)>>,
    skipped_offset: usize,
    visible_start: usize,
    visible_end: usize,
) -> (r: Vec<usize>)
    ensures
        r@ == shown_markers(
            markers@,
            skipped_offset,
            visible_start,
            visible_end,
            markers.len() as int,
        ),
{
    let mut res: Vec<usize> = Vec::new();
    let mut i: usize = 0;
    while i < markers.len()
        invariant
            i <= markers.len(),
            res@ == shown_markers(markers@, skipped_offset, visible_start, visible_end, i as int),
        decreases markers.len() - i,
    {
        if let Some((start, end)) = markers[i] {
            if start >= skipped_offset && (start >= visible_start || end <= visible_end) {
                res.push(i);
            }
        }
        i = i + 1;
    }
    res
}

// ---------------------------------------------------------------------------
// How the displayed text is cut into styled runs.
// ---------------------------------------------------------------------------

/// The style of a run of the displayed text.
#[derive(Clone, Copy, Debug, PartialEq, Eq)]
pub enum RunKind {
    /// The input's text style.
    Plain,
    /// Plain style, underlined: the text being composed (IME marked text).
    Marked,
    /// The `style`-th highlight; `marked` when the run lies inside the
    /// composition, whose colour and underline then take over.
    Highlight { style: usize, marked: bool },
}

/// A run of `len` bytes of the displayed text in one style.
#[derive(Clone, Copy, Debug, PartialEq, Eq)]
pub struct RunSpec {
    pub len: usize,
    pub kind: RunKind,
}

/// Runs of positive length only.
pub open spec fn nonempty_run(run: RunSpec) -> bool {
    run.len > 0
}

/// Total length of runs.
pub open spec fn runs_len(runs: Seq<RunSpec>) -> int
    decreases runs.len(),
{
    if runs.len() == 0 {
        0
    } else {
        runs_len(runs.drop_last()) + runs.last().len
    }
}

/// Length of a byte range `start..end` (zero when it is empty or reversed).
pub open spec fn range_len(range: (usize, usize)) -> usize {
    if range.1 > range.0 {
        (range.1 - range.0) as usize
    } else {
        0
    }
}

/// The run of the `k`-th highlight range: its length, and whether it lies inside
/// the composition `marked`.
pub open spec fn highlight_run(k: int, range: (usize, usize), marked: Option<(usize, usize)>) -> RunSpec {
    RunSpec {
        len: range_len(range),
        kind: RunKind::Highlight {
            style: k as usize,
            marked: match marked {
                Some((marked_start, marked_end)) => range.0 >= marked_start && range.1 <= marked_end,
                None => false,
            },
        },
    }
}

/// The runs of highlighted text before empty runs are dropped: one plain run
/// for the skipped bytes (when there are any), then one run per highlight range.
pub open spec fn highlighted_runs_all(
    skipped_offset: usize,
    ranges: Seq<(usize, usize)>,
    marked: Option<(usize, usize)>,
) -> Seq<RunSpec> {
    (if skipped_offset > 0 {
        seq![RunSpec { len: skipped_offset, kind: RunKind::Plain }]
    } else {
        Seq::empty()
    }) + Seq::new(ranges.len(), |k: int| highlight_run(k, ranges[k], marked))
}

/// The runs of the text being composed while the input is empty: plain up to
/// the composition, underlined over it, plain after it, empty ones dropped.
pub open spec fn marked_runs_all(display_len: usize, marked_start: usize, marked_end: usize) -> Seq<
    RunSpec,
> {
    seq![
        RunSpec { len: marked_start, kind: RunKind::Plain },
        RunSpec { len: (marked_end - marked_start) as usize, kind: RunKind::Marked },
        RunSpec { len: (display_len - marked_end) as usize, kind: RunKind::Plain },
    ]
}

/// The runs of highlighted text: the skipped bytes in the plain style, then each
/// highlight range in its style, empty runs dropped.
pub fn highlighted_runs(
    skipped_offset: usize,
    ranges: &Vec<(usize, usize)>,
    marked: Option<(usize, usize)>,
) -> (r: Vec<RunSpec>)
    ensures
        r@ == highlighted_runs_all(skipped_offset, ranges@, marked).filter(
            |run: RunSpec| nonempty_run(run),
        ),
{
    broadcast use Seq::lemma_filter_push;

    let ghost pred = |run: RunSpec| nonempty_run(run);
    let ghost head = if skipped_offset > 0 {
        seq![RunSpec { len: skipped_offset, kind: RunKind::Plain }]
    } else {
        Seq::<RunSpec>::empty()
    };
    let mut runs: Vec<RunSpec> = Vec::new();
    proof {
        reveal(Seq::filter);
        assert(Seq::<RunSpec>::empty().filter(pred) =~= Seq::<RunSpec>::empty());
    }
    if skipped_offset > 0 {
        runs.push(RunSpec { len: skipped_offset, kind: RunKind::Plain });
        assert(Seq::<RunSpec>::empty().push(head[0]) =~= head);
    }
    assert(runs@ == head.filter(pred));
    let mut k: usize = 0;
    while k < ranges.len()
        invariant
            k <= ranges.len(),
            runs@ == (head + Seq::new(k as nat, |j: int| highlight_run(j, ranges@[j], marked))).filter(
                pred,
            ),
            pred == (|run: RunSpec| nonempty_run(run)),
        decreases ranges.len() - k,
    {
        let (start, end) = ranges[k];
        let len = if end > start {
            end - start
        } else {
            0
        };
        let in_marked = match marked {
            Some((marked_start, marked_end)) => start >= marked_start && end <= marked_end,
            None => false,
        };
        let run = RunSpec { len, kind: RunKind::Highlight { style: k, marked: in_marked } };
        assert(run == highlight_run(k as int, ranges@[k as int], marked));
        let ghost prev = head + Seq::new(k as nat, |j: int| highlight_run(j, ranges@[j], marked));
        assert(head + Seq::new((k + 1) as nat, |j: int| highlight_run(j, ranges@[j], marked))
            =~= prev.push(run));
        proof {
            prev.lemma_filter_push(run, pred);
            assert(pred(run) == (len > 0));
        }
        if len > 0 {
            runs.push(run);
        }
        k = k + 1;
    }
    assert(Seq::new(ranges@.len(), |j: int| highlight_run(j, ranges@[j], marked)) =~= Seq::new(
        k as nat,
        |j: int| highlight_run(j, ranges@[j], marked),
    ));
    runs
}

/// The runs of the text being composed while the input is empty.
pub fn marked_runs(display_len: usize, marked_start: usize, marked_end: usize) -> (r: Vec<RunSpec>)
    requires
        marked_start <= marked_end <= display_len,
    ensures
        r@ == marked_runs_all(display_len, marked_start, marked_end).filter(
            |run: RunSpec| nonempty_run(run),
        ),
{
    broadcast use Seq::lemma_filter_push;

    let ghost pred = |run: RunSpec| nonempty_run(run);
    let ghost all = marked_runs_all(display_len, marked_start, marked_end);
    let candidates = [
        RunSpec { len: marked_start, kind: RunKind::Plain },
        RunSpec { len: marked_end - marked_start, kind: RunKind::Marked },
        RunSpec { len: display_len - marked_end, kind: RunKind::Plain },
    ];
    let mut runs: Vec<RunSpec> = Vec::new();
    proof {
        reveal(Seq::filter);
        assert(all.take(0).filter(pred) =~= Seq::<RunSpec>::empty());
    }
    let mut k: usize = 0;
    while k < 3
        invariant
            k <= 3,
            candidates@ == all,
            runs@ == all.take(k as int).filter(pred),
            pred == (|run: RunSpec| nonempty_run(run)),
        decreases 3 - k,
    {
        let run = candidates[k];
        assert(all.take(k + 1) =~= all.take(k as int).push(run));
        proof {
            all.take(k as int).lemma_filter_push(run, pred);
            assert(pred(run) == (run.len > 0));
        }
        if run.len > 0 {
            runs.push(run);
        }
        k = k + 1;
    }
    assert(all.take(3) =~= all);
    runs
}


/// The runs of the displayed text.
///
/// A non-empty text is cut by the highlights when there are any and is one plain
/// run otherwise. An empty input shows its placeholder, cut around the text being
/// composed when a composition is active and one plain run otherwise.
pub open spec fn text_runs_spec(
    text_is_empty: bool,
    display_len: usize,
    highlights: Option<(usize, Seq<(usize, usize)>)>,
    marked: Option<(usize, usize)>,
) -> Seq<RunSpec> {
    if !text_is_empty {
        match highlights {
            Some((skipped_offset, ranges)) => highlighted_runs_all(
                skipped_offset,
                ranges,
                marked,
            ).filter(|run: RunSpec| nonempty_run(run)),
            None => seq![RunSpec { len: display_len, kind: RunKind::Plain }],
        }
    } else {
        match marked {
            Some((marked_start, marked_end)) => marked_runs_all(
                display_len,
                marked_start,
                marked_end,
            ).filter(|run: RunSpec| nonempty_run(run)),
            None => seq![RunSpec { len: display_len, kind: RunKind::Plain }],
        }
    }
}

/// Cuts the displayed text (of `display_len` bytes) into styled runs.
pub fn text_runs(
    text_is_empty: bool,
    display_len: usize,
    highlights: Option<(usize, &Vec<(usize, usize)>)>,
    marked: Option<(usize, usize)>,
) -> (r: Vec<RunSpec>)
    requires
        text_is_empty ==> (marked matches Some((marked_start, marked_end)) ==> marked_start
            <= marked_end <= display_len),
    ensures
        r@ == text_runs_spec(
            text_is_empty,
            display_len,
            match highlights {
                Some((skipped_offset, ranges)) => Some((skipped_offset, ranges@)),
                None => None,
            },
            marked,
        ),
{
    if !text_is_empty {
        match highlights {
            Some((skipped_offset, ranges)) => highlighted_runs(skipped_offset, ranges, marked),
            None => {
                let mut runs = Vec::new();
                runs.push(RunSpec { len: display_len, kind: RunKind::Plain });
                assert(runs@ =~= seq![RunSpec { len: display_len, kind: RunKind::Plain }]);
                runs
            },
        }
    } else {
        match marked {
            Some((marked_start, marked_end)) => marked_runs(display_len, marked_start, marked_end),
            None => {
                let mut runs = Vec::new();
                runs.push(RunSpec { len: display_len, kind: RunKind::Plain });
                assert(runs@ =~= seq![RunSpec { len: display_len, kind: RunKind::Plain }]);
                runs
            },
        }
    }
}

/// Dropping empty runs does not change the total length.
pub proof fn lemma_runs_len_filter(runs: Seq<RunSpec>)
    ensures
        runs_len(runs.filter(|run: RunSpec| nonempty_run(run))) == runs_len(runs),
    decreases runs.len(),
{
    reveal(Seq::filter);
    if runs.len() > 0 {
        lemma_runs_len_filter(runs.drop_last());
        let f = runs.drop_last().filter(|run: RunSpec| nonempty_run(run));
        if nonempty_run(runs.last()) {
            assert(f.push(runs.last()).drop_last() =~= f);
        }
    }
}

/// The runs of a composition cover the displayed text exactly: their lengths add
/// up to its length.
pub proof fn law_marked_runs_cover_text(display_len: usize, marked_start: usize, marked_end: usize)
    requires
        marked_start <= marked_end <= display_len,
    ensures
        runs_len(
            marked_runs_all(display_len, marked_start, marked_end).filter(
                |run: RunSpec| nonempty_run(run),
            ),
        ) == display_len,
{
    let all = marked_runs_all(display_len, marked_start, marked_end);
    lemma_runs_len_filter(all);
    assert(all.drop_last().drop_last().drop_last() =~= Seq::<RunSpec>::empty());
    assert(runs_len(Seq::<RunSpec>::empty()) == 0);
    assert(all.drop_last().drop_last() =~= seq![all[0]]);
    assert(runs_len(all.drop_last().drop_last()) == marked_start);
    assert(runs_len(all.drop_last()) == marked_end);
}

/// Sum of a sequence of counts.
pub open spec fn sum_counts(s: Seq<usize>) -> int
    decreases s.len(),
{
    if s.len() == 0 {
        0
    } else {
        sum_counts(s.drop_last()) + s.last()
    }
}

/// Total number of visual rows of lines with the given numbers of wrap
/// boundaries: each line has one row plus one per wrap boundary.
pub fn total_wrapped_lines(wraps: &Vec<usize>) -> (r: usize)
    requires
        wraps.len() + sum_counts(wraps@) <= usize::MAX,
    ensures
        r == wraps.len() + sum_counts(wraps@),
{
    let mut total: usize = 0;
    let mut i: usize = 0;
    while i < wraps.len()
        invariant
            i <= wraps.len(),
            wraps.len() + sum_counts(wraps@) <= usize::MAX,
            total == i + sum_counts(wraps@.take(i as int)),
        decreases wraps.len() - i,
    {
        assert(wraps@.take(i + 1).drop_last() =~= wraps@.take(i as int));
        proof {
            lemma_sum_counts_prefix(wraps@, i as int + 1);
        }
        total = total + 1 + wraps[i];
        i = i + 1;
    }
    assert(wraps@.take(i as int) =~= wraps@);
    total
}

/// A prefix of a sequence of counts sums to no more than the whole.
proof fn lemma_sum_counts_prefix(s: Seq<usize>, k: int)
    requires
        0 <= k <= s.len(),
    ensures
        sum_counts(s.take(k)) <= sum_counts(s),
    decreases s.len() - k,
{
    if k < s.len() {
        lemma_sum_counts_prefix(s, k + 1);
        assert(s.take(k + 1).drop_last() =~= s.take(k));
    } else {
        assert(s.take(k) =~= s);
    }
}


// ---------------------------------------------------------------------------
// Line numbers and the displayed text.
// ---------------------------------------------------------------------------

/// The character of the decimal digit `d`.
pub open spec fn digit_char(d: int) -> char {
    (d + 48) as char
}

/// Decimal digits of `n`, most significant first, without leading zeros.
pub open spec fn decimal(n: nat) -> Seq<char>
    decreases n,
{
    if n < 10 {
        seq![digit_char(n as int)]
    } else {
        decimal(n / 10).push(digit_char((n % 10) as int))
    }
}

/// `n` in decimal, padded on the left with spaces to `width` characters.
pub open spec fn right_aligned(n: nat, width: nat) -> Seq<char> {
    let digits = decimal(n);
    Seq::new(
        (if digits.len() < width {
            width - digits.len()
        } else {
            0
        }) as nat,
        |_i: int| ' ',
    ) + digits
}

/// One blank continuation line of the gutter per wrap boundary.
pub open spec fn wrap_rows(wraps: nat) -> Seq<char>
    decreases wraps,
{
    if wraps == 0 {
        Seq::empty()
    } else {
        wrap_rows((wraps - 1) as nat) + seq!['\n', ' ', ' ', ' ', ' ']
    }
}

/// The gutter text of line number `line_no` on a line with `wraps` wrap
/// boundaries: the number right-aligned in four columns, then one blank row per
/// wrap boundary.
pub open spec fn line_number_text(line_no: nat, wraps: nat) -> Seq<char> {
    right_aligned(line_no, 4) + wrap_rows(wraps)
}

/// Collects characters into a `String` (std's `FromIterator<&char>` for
/// `String`); the contract claims that the string holds exactly those characters,
/// in order.
#[verifier::external_body]
fn string_from_chars(chars: &Vec<char>) -> (r: String)
    ensures
        r@ == chars@,
{
    chars.iter().collect()
}

/// Appends the decimal digits of `n`.
fn push_decimal(out: &mut Vec<char>, n: usize)
    ensures
        final(out)@ == old(out)@ + decimal(n as nat),
    decreases n,
{
    if n >= 10 {
        push_decimal(out, n / 10);
    }
    let d: u8 = (n % 10) as u8;
    let c: char = (d + 48u8) as char;
    assert(c == digit_char((n % 10) as int));
    out.push(c);
    proof {
        if n < 10 {
            assert(decimal(n as nat) =~= seq![digit_char(n as int)]);
        }
    }
}

/// The gutter text of line number `line_no` on a line with `wraps` wrap
/// boundaries.
pub fn line_number_label(line_no: usize, wraps: usize) -> (r: String)
    ensures
        r@ == line_number_text(line_no as nat, wraps as nat),
{
    let mut digits: Vec<char> = Vec::new();
    push_decimal(&mut digits, line_no);
    assert(digits@ =~= decimal(line_no as nat));
    let mut out: Vec<char> = Vec::new();
    let pad: usize = if digits.len() < 4 {
        4 - digits.len()
    } else {
        0
    };
    let mut i: usize = 0;
    while i < pad
        invariant
            i <= pad,
            out@ =~= Seq::new(i as nat, |_i: int| ' '),
        decreases pad - i,
    {
        out.push(' ');
        i = i + 1;
    }
    let mut j: usize = 0;
    while j < digits.len()
        invariant
            j <= digits.len(),
            out@ =~= Seq::new(pad as nat, |_i: int| ' ') + digits@.take(j as int),
        decreases digits.len() - j,
    {
        out.push(digits[j]);
        j = j + 1;
        assert(digits@.take(j as int) =~= digits@.take(j - 1).push(digits@[j - 1]));
    }
    assert(digits@.take(j as int) =~= digits@);
    assert(out@ =~= right_aligned(line_no as nat, 4));
    let mut w: usize = 0;
    while w < wraps
        invariant
            w <= wraps,
            out@ =~= right_aligned(line_no as nat, 4) + wrap_rows(w as nat),
        decreases wraps - w,
    {
        out.push('\n');
        out.push(' ');
        out.push(' ');
        out.push(' ');
        out.push(' ');
        w = w + 1;
        assert(wrap_rows(w as nat) =~= wrap_rows((w - 1) as nat) + seq!['\n', ' ', ' ', ' ', ' ']);
    }
    string_from_chars(&out)
}

/// The gutter label of one visible line: its text, and whether it is the line
/// of the cursor.
pub struct LineNumberLabel {
    pub text: String,
    pub current: bool,
}

/// Number of lines that get a gutter label: those of `visible_start..visible_end`
/// that exist.
pub open spec fn labelled_line_count(n: int, visible_start: int, visible_end: int) -> int {
    if visible_start < visible_end && visible_start < n {
        if visible_end < n {
            visible_end - visible_start
        } else {
            n - visible_start
        }
    } else {
        0
    }
}

/// The gutter labels of the visible lines `visible_start..visible_end` (end
/// excluded), numbered from one; `wraps` gives each line's wrap boundaries and
/// `current_line` the line of the cursor.
pub fn line_number_labels(
    wraps: &Vec<usize>,
    visible_start: usize,
    visible_end: usize,
    current_line: Option<usize>,
) -> (r: Vec<LineNumberLabel>)
    ensures
        r.len() == labelled_line_count(wraps.len() as int, visible_start as int, visible_end as int),
        forall|k: int|
            0 <= k < r.len() ==> {
                &&& (#[trigger] r@[k]).text@ == line_number_text(
                    (visible_start + k + 1) as nat,
                    wraps@[visible_start + k] as nat,
                )
                &&& r@[k].current == (current_line == Some((visible_start + k) as usize))
            },
{
    let mut labels: Vec<LineNumberLabel> = Vec::new();
    let n = wraps.len();
    let end = if visible_end < n {
        visible_end
    } else {
        n
    };
    let mut ix = visible_start;
    while ix < end
        invariant
            n == wraps.len(),
            end <= n,
            visible_start <= ix,
            ix <= end || labels.len() == 0,
            labels.len() == ix - visible_start || (ix == visible_start && labels.len() == 0),
            forall|k: int|
                0 <= k < labels.len() ==> {
                    &&& (#[trigger] labels@[k]).text@ == line_number_text(
                        (visible_start + k + 1) as nat,
                        wraps@[visible_start + k] as nat,
                    )
                    &&& labels@[k].current == (current_line == Some((visible_start + k) as usize))
                },
        decreases end - ix,
    {
        let text = line_number_label(ix + 1, wraps[ix]);
        let current = match current_line {
            Some(line) => line == ix,
            None => false,
        };
        labels.push(LineNumberLabel { text, current });
        ix = ix + 1;
    }
    labels
}

/// The text an input displays: its placeholder while it is empty, one `*` per
/// character while it is masked, its own text otherwise.
pub open spec fn display_text_spec(text: Seq<char>, placeholder: Seq<char>, masked: bool) -> Seq<
    char,
> {
    if text.len() == 0 {
        placeholder
    } else if masked {
        Seq::new(text.len(), |_i: int| '*')
    } else {
        text
    }
}

/// Builds the text the input displays.
pub fn display_text(text: &str, placeholder: &str, masked: bool) -> (r: String)
    ensures
        r@ == display_text_spec(text@, placeholder@, masked),
{
    if text.is_empty() {
        placeholder.to_owned()
    } else if masked {
        let count = text.unicode_len();
        let mut stars: Vec<char> = Vec::new();
        let mut i: usize = 0;
        while i < count
            invariant
                i <= count,
                stars@ =~= Seq::new(i as nat, |_i: int| '*'),
            decreases count - i,
        {
            stars.push('*');
            i = i + 1;
        }
        string_from_chars(&stars)
    } else {
        text.to_owned()
    }
}


// ---------------------------------------------------------------------------
// Laws.
// ---------------------------------------------------------------------------

/// Every position on a line is found again from its offset: column `c` of line
/// `i` (with `c` at most the line's length) lies at offset `line_start + c`, and
/// that offset is located at line `i`, column `c`.
pub proof fn law_locate_round_trip(lens: Seq<usize>, i: int, c: int)
    requires
        0 <= i < lens.len(),
        0 <= c <= lens[i],
    ensures
        position_of(lens, line_start(lens, i) + c) == Some(
            LinePosition { line: i as usize, column: c as usize },
        ),
{
    let offset = line_start(lens, i) + c;
    lemma_line_of(lens, offset);
    if i > 0 {
        lemma_line_start_monotone(lens, i - 1, i);
        assert(!(offset <= line_end(lens, i - 1)));
    }
    assert(offset <= line_end(lens, i));
}

/// An offset is placed on a line exactly when it is not past the end of the
/// last line.
pub proof fn law_locate_within_text(lens: Seq<usize>, offset: int)
    requires
        lens.len() > 0,
    ensures
        position_of(lens, offset) is Some <==> offset <= line_end(lens, lens.len() - 1),
{
    lemma_line_of(lens, offset);
}

/// The ranges handed to the highlighter are consecutive: each starts where the
/// previous one ends, the first starts at the skipped offset, and each spans its
/// line's bytes plus one newline.
pub proof fn law_highlighted_ranges_contiguous(lens: Seq<usize>, visible_start: int, visible_end: int)
    requires
        0 <= visible_start,
        fits_usize(lens),
    ensures
        ({
            let r = highlighted_ranges(lens, visible_start, visible_end);
            &&& forall|k: int|
                0 <= k < r.len() - 1 ==> (#[trigger] r[k]).1 == r[k + 1].0
            &&& r.len() > 0 ==> r[0].0 == skipped_offset_of(lens, visible_start)
            &&& forall|k: int|
                0 <= k < r.len() ==> (#[trigger] r[k]).1 - r[k].0 == lens[visible_start + k] + 1
        }),
{
    let r = highlighted_ranges(lens, visible_start, visible_end);
    let n = lens.len() as int;
    assert forall|k: int| 0 <= k < r.len() implies {
        &&& (#[trigger] r[k]).0 == line_start(lens, visible_start + k)
        &&& r[k].1 == line_start(lens, visible_start + k + 1)
    } by {
        assert(visible_start + k + 1 <= n);
        lemma_line_start_monotone(lens, visible_start + k + 1, n);
        lemma_line_start_monotone(lens, visible_start + k, n);
        lemma_line_start_monotone(lens, 0, visible_start + k);
    }
    assert forall|k: int| 0 <= k < r.len() implies (#[trigger] r[k]).1 - r[k].0 == lens[visible_start
        + k] + 1 by {
        assert(line_start(lens, visible_start + k + 1) == line_start(lens, visible_start + k)
            + lens[visible_start + k] + 1);
    }
    assert forall|k: int| 0 <= k < r.len() - 1 implies (#[trigger] r[k]).1 == r[k + 1].0 by {
        assert(r[k + 1].0 == line_start(lens, visible_start + k + 1));
    }
}

/// Numeric value of a string of decimal digits.
pub open spec fn decimal_value(digits: Seq<char>) -> int
    decreases digits.len(),
{
    if digits.len() == 0 {
        0
    } else {
        decimal_value(digits.drop_last()) * 10 + (digits.last() as int - 48)
    }
}

/// A line number reads back as itself: its decimal digits have its value, and
/// padded to four columns it takes four characters up to 9999.
pub proof fn law_line_number_reads_back(n: nat)
    ensures
        decimal_value(decimal(n)) == n,
        n < 10000 ==> right_aligned(n, 4).len() == 4,
    decreases n,
{
    if n >= 10 {
        law_line_number_reads_back(n / 10);
        let d = (n % 10) as int;
        assert(decimal(n) == decimal(n / 10).push(digit_char(d)));
        assert(decimal(n).drop_last() =~= decimal(n / 10));
        assert(digit_char(d) as int == d + 48);
        assert((n / 10) * 10 + d == n) by (nonlinear_arith)
            requires
                d == n % 10,
        ;
    } else {
        assert(decimal(n).drop_last() =~= Seq::<char>::empty());
        assert(digit_char(n as int) as int == n + 48);
        assert(decimal_value(Seq::<char>::empty()) == 0);
    }
    if n < 10000 {
        lemma_decimal_len(n);
    }
}

/// Numbers below 10^4 have at most four decimal digits.
proof fn lemma_decimal_len(n: nat)
    requires
        n < 10000,
    ensures
        1 <= decimal(n).len() <= 4,
{
    if n >= 10 {
        assert(decimal(n).len() == decimal(n / 10).len() + 1);
        if n / 10 >= 10 {
            assert(decimal(n / 10).len() == decimal(n / 100).len() + 1);
            if n / 100 >= 10 {
                assert(decimal(n / 100).len() == decimal(n / 1000).len() + 1);
                assert(n / 1000 < 10);
            }
        }
    }
}

/// Total length of the highlighted runs: the skipped bytes plus the length of
/// every highlight range.
pub proof fn law_highlighted_runs_len(
    skipped_offset: usize,
    ranges: Seq<(usize, usize)>,
    marked: Option<(usize, usize)>,
)
    ensures
        runs_len(
            highlighted_runs_all(skipped_offset, ranges, marked).filter(
                |run: RunSpec| nonempty_run(run),
            ),
        ) == skipped_offset + runs_len(
            Seq::new(ranges.len(), |k: int| highlight_run(k, ranges[k], marked)),
        ),
{
    let all = highlighted_runs_all(skipped_offset, ranges, marked);
    lemma_runs_len_filter(all);
    let head = if skipped_offset > 0 {
        seq![RunSpec { len: skipped_offset, kind: RunKind::Plain }]
    } else {
        Seq::<RunSpec>::empty()
    };
    let tail = Seq::new(ranges.len(), |k: int| highlight_run(k, ranges[k], marked));
    lemma_runs_len_concat(head, tail);
    assert(runs_len(Seq::<RunSpec>::empty()) == 0);
    if skipped_offset > 0 {
        assert(head.drop_last() =~= Seq::<RunSpec>::empty());
    }
    assert(all == head + tail);
}

/// The length of concatenated runs is the sum of their lengths.
pub proof fn lemma_runs_len_concat(a: Seq<RunSpec>, b: Seq<RunSpec>)
    ensures
        runs_len(a + b) == runs_len(a) + runs_len(b),
    decreases b.len(),
{
    if b.len() == 0 {
        assert(a + b =~= a);
    } else {
        lemma_runs_len_concat(a, b.drop_last());
        assert((a + b).drop_last() =~= a + b.drop_last());
    }
}


/// Total number of bytes covered by selection segments.
pub open spec fn segments_len(segs: Seq<SelectionSegment>) -> int
    decreases segs.len(),
{
    if segs.len() == 0 {
        0
    } else {
        segments_len(segs.drop_last()) + segs.last().end - segs.last().start
    }
}

/// The segments before the line of `e` cover the bytes from `s` to the start of
/// line `a + m`, one newline per line break counted.
proof fn lemma_segments_prefix_len(lens: Seq<usize>, s: int, e: int, m: int)
    requires
        0 <= s <= e,
        line_of(lens, e) < lens.len(),
        1 <= m <= line_of(lens, e) - line_of(lens, s),
    ensures
        segments_len(segments_between(lens, s, e).take(m)) + m == line_start(
            lens,
            line_of(lens, s) + m,
        ) - s,
    decreases m,
{
    let a = line_of(lens, s);
    let b = line_of(lens, e);
    let segs = segments_between(lens, s, e);
    lemma_line_of(lens, s);
    lemma_line_of(lens, e);
    assert(e <= line_end(lens, b));
    assert(s <= line_end(lens, b));
    assert(segs.take(m).drop_last() =~= segs.take(m - 1));
    let i = a + m - 1;
    assert(segs[m - 1] == segment_at(lens, s, e, i));
    assert(segs.take(m).last() == segs[m - 1]);
    assert(segments_len(segs.take(m)) == segments_len(segs.take(m - 1)) + segs[m - 1].end
        - segs[m - 1].start);
    assert(line_start(lens, i + 1) == line_start(lens, i) + lens[i] + 1);
    if m == 1 {
        assert(segs.take(0) =~= Seq::<SelectionSegment>::empty());
        assert(segments_len(Seq::<SelectionSegment>::empty()) == 0);
        assert(s <= line_end(lens, a));
        assert(line_start(lens, a) <= s);
        assert(segs[0].start == s - line_start(lens, a));
        assert(segs[0].end == lens[a]);
    } else {
        lemma_segments_prefix_len(lens, s, e, m - 1);
        assert(i != a && i != b);
        assert(segs[m - 1].start == 0);
        assert(segs[m - 1].end == lens[i]);
    }
}

/// The painted selection covers exactly the selected bytes: when the
/// selection's end lies within the text, the segments' lengths plus one newline
/// between consecutive segments add up to the selection's length.
pub proof fn law_segments_cover_selection(lens: Seq<usize>, s: int, e: int)
    requires
        0 <= s <= e,
        line_of(lens, e) < lens.len(),
    ensures
        segments_between(lens, s, e).len() >= 1,
        segments_len(segments_between(lens, s, e)) + segments_between(lens, s, e).len() - 1 == e
            - s,
{
    let a = line_of(lens, s);
    let b = line_of(lens, e);
    let segs = segments_between(lens, s, e);
    lemma_line_of(lens, s);
    lemma_line_of(lens, e);
    assert(e <= line_end(lens, b));
    assert(s <= line_end(lens, b));
    assert(a <= b);
    assert(segs.len() == b - a + 1);
    assert(segs.drop_last() =~= segs.take(b - a));
    assert(segs[b - a] == segment_at(lens, s, e, b));
    assert(line_start(lens, b) <= e);
    assert(segs[b - a].end == e - line_start(lens, b));
    assert(segments_len(segs) == segments_len(segs.drop_last()) + segs[b - a].end - segs[b
        - a].start);
    if a == b {
        assert(segs.take(0) =~= Seq::<SelectionSegment>::empty());
        assert(segments_len(Seq::<SelectionSegment>::empty()) == 0);
        assert(segs[0].start == s - line_start(lens, a));
    } else {
        lemma_segments_prefix_len(lens, s, e, b - a);
        assert(segs[b - a].start == 0);
    }
}

/// Each highlight range gets one run, in order after the plain run of the
/// skipped bytes (present exactly when some bytes are skipped): the run has the
/// range's length (nothing for an empty or reversed range), the range's style,
/// and is marked exactly when the range lies within the composition. So a
/// non-empty range that starts at or after the composition's end, or ends
/// after it, or starts before its start, is never marked.
pub proof fn law_highlight_runs_follow_ranges(
    skipped_offset: usize,
    ranges: Seq<(usize, usize)>,
    marked: Option<(usize, usize)>,
)
    requires
        ranges.len() <= usize::MAX,
    ensures
        ({
            let all = highlighted_runs_all(skipped_offset, ranges, marked);
            let h: int = if skipped_offset > 0 {
                1
            } else {
                0
            };
            &&& all.len() == h + ranges.len()
            &&& skipped_offset > 0 ==> all[0] == RunSpec { len: skipped_offset, kind: RunKind::Plain }
            &&& forall|k: int|
                0 <= k < ranges.len() ==> {
                    let r = #[trigger] ranges[k];
                    &&& all[h + k].len == (if r.1 > r.0 {
                        r.1 - r.0
                    } else {
                        0
                    })
                    &&& all[h + k].kind matches RunKind::Highlight { style, marked: m }
                    &&& all[h + k].kind->style == k
                    &&& (all[h + k].kind->marked <==> (marked matches Some((ms, me)) && ms <= r.0
                        && r.1 <= me))
                    &&& (marked matches Some((ms, me)) && r.0 < r.1 && (me <= r.0 || me < r.1 || r.0
                        < ms)) ==> !all[h + k].kind->marked
                    &&& marked is None ==> !all[h + k].kind->marked
                }
        }),
{
    let all = highlighted_runs_all(skipped_offset, ranges, marked);
    let h: int = if skipped_offset > 0 {
        1
    } else {
        0
    };
    let head = if skipped_offset > 0 {
        seq![RunSpec { len: skipped_offset, kind: RunKind::Plain }]
    } else {
        Seq::<RunSpec>::empty()
    };
    let tail = Seq::new(ranges.len(), |k: int| highlight_run(k, ranges[k], marked));
    assert(all == head + tail);
    assert forall|k: int| 0 <= k < ranges.len() implies all[h + k] == highlight_run(
        k,
        #[trigger] ranges[k],
        marked,
    ) by {
        assert(all[h + k] == tail[k]);
    }
}

/// The markers that are styled are exactly, in increasing order, those with a
/// range that starts at or after the skipped offset and starts at or after
/// `visible_start` or ends at or before `visible_end`.
pub proof fn law_visible_markers(
    markers: Seq<Option<(usize, usize)>>,
    skipped_offset: usize,
    visible_start: usize,
    visible_end: usize,
    k: int,
)
    requires
        0 <= k <= markers.len(),
        markers.len() <= usize::MAX,
    ensures
        ({
            let r = shown_markers(markers, skipped_offset, visible_start, visible_end, k);
            &&& forall|i: int|
                0 <= i < r.len() ==> {
                    &&& #[trigger] r[i] < k
                    &&& markers[r[i] as int] matches Some((s, e)) && s >= skipped_offset && (s
                        >= visible_start || e <= visible_end)
                }
            &&& forall|i: int, j: int| 0 <= i < j < r.len() ==> #[trigger] r[i] < #[trigger] r[j]
            &&& forall|m: int|
                0 <= m < k && (#[trigger] markers[m] matches Some((s, e)) && s >= skipped_offset
                    && (s >= visible_start || e <= visible_end)) ==> r.contains(m as usize)
        }),
    decreases k,
{
    if k > 0 {
        law_visible_markers(markers, skipped_offset, visible_start, visible_end, k - 1);
        let p = shown_markers(markers, skipped_offset, visible_start, visible_end, k - 1);
        let r = shown_markers(markers, skipped_offset, visible_start, visible_end, k);
        let shown = marker_shown(markers[k - 1], skipped_offset, visible_start, visible_end);
        if shown {
            assert(r == p.push((k - 1) as usize));
        } else {
            assert(r == p);
        }
        assert forall|i: int| 0 <= i < r.len() implies {
            &&& #[trigger] r[i] < k
            &&& markers[r[i] as int] matches Some((s, e)) && s >= skipped_offset && (s
                >= visible_start || e <= visible_end)
        } by {
            if i < p.len() {
                assert(r[i] == p[i]);
            }
        }
        assert forall|i: int, j: int| 0 <= i < j < r.len() implies #[trigger] r[i] < #[trigger] r[j] by {
            if j < p.len() {
                assert(r[i] == p[i] && r[j] == p[j]);
            } else {
                assert(r[i] == p[i]);
            }
        }
        assert forall|m: int|
            0 <= m < k && (#[trigger] markers[m] matches Some((s, e)) && s >= skipped_offset && (s
                >= visible_start || e <= visible_end)) implies r.contains(m as usize) by {
            if m < k - 1 {
                assert(p.contains(m as usize));
                let i = choose|i: int| 0 <= i < p.len() && p[i] == m as usize;
                assert(r[i] == p[i]);
            } else {
                assert(r[r.len() - 1] == m as usize);
            }
        }
    }
}

/// The displayed text: the placeholder exactly when the text is empty; while
/// masked, as many characters as the text, all `*`; otherwise the text.
pub proof fn law_display_text(text: Seq<char>, placeholder: Seq<char>, masked: bool)
    ensures
        text.len() == 0 ==> display_text_spec(text, placeholder, masked) == placeholder,
        text.len() > 0 && masked ==> display_text_spec(text, placeholder, masked).len()
            == text.len() && forall|i: int|
            0 <= i < text.len() ==> #[trigger] display_text_spec(text, placeholder, masked)[i]
                == '*',
        text.len() > 0 && !masked ==> display_text_spec(text, placeholder, masked) == text,
{
}

/// While a composition is active the cursor layout follows a caret at its end;
/// the painted selection does so only for a non-empty composition. Otherwise
/// both are the selected range, and an empty selection paints nothing.
pub proof fn law_selection_under_composition(
    lens: Seq<usize>,
    selected_start: usize,
    selected_end: usize,
    marked: Option<(usize, usize)>,
)
    ensures
        marked matches Some((ms, me)) ==> followed_selection(selected_start, selected_end, marked)
            == (me, me),
        marked matches Some((ms, me)) ==> (ms < me ==> painted_selection(
            selected_start,
            selected_end,
            marked,
        ) == (me, me)),
        (marked is None || (marked matches Some((ms, me)) && me <= ms)) ==> painted_selection(
            selected_start,
            selected_end,
            marked,
        ) == (selected_start, selected_end),
        marked is None ==> followed_selection(selected_start, selected_end, marked) == (
            selected_start,
            selected_end,
        ),
        selection_segments_spec(lens, selected_start, selected_start, None).len() == 0,
{
}

/// The layout reports a change exactly when the cursor or the followed
/// selection differs from the one last painted, or nothing was painted yet.
pub proof fn law_layout_changed(
    last_cursor: Option<usize>,
    cursor: usize,
    last_selection: Option<(usize, usize)>,
    selection: (usize, usize),
)
    ensures
        !layout_changed(last_cursor, cursor, last_selection, selection) <==> (last_cursor == Some(
            cursor) && last_selection == Some(selection)),
        last_cursor is None ==> layout_changed(last_cursor, cursor, last_selection, selection),
        last_selection is None ==> layout_changed(last_cursor, cursor, last_selection, selection),
{
}

/// While composing in an empty input the text is plain up to the composition,
/// underlined over it and plain after it; a run is marked exactly when the
/// composition is non-empty, and then it has the composition's length.
pub proof fn law_marked_runs_shape(display_len: usize, marked_start: usize, marked_end: usize)
    requires
        marked_start <= marked_end <= display_len,
    ensures
        0 < marked_start < marked_end < display_len ==> marked_runs_all(
            display_len,
            marked_start,
            marked_end,
        ).filter(|run: RunSpec| nonempty_run(run)) == seq![
            RunSpec { len: marked_start, kind: RunKind::Plain },
            RunSpec { len: (marked_end - marked_start) as usize, kind: RunKind::Marked },
            RunSpec { len: (display_len - marked_end) as usize, kind: RunKind::Plain },
        ],
        0 < marked_start == marked_end < display_len ==> marked_runs_all(
            display_len,
            marked_start,
            marked_end,
        ).filter(|run: RunSpec| nonempty_run(run)) == seq![
            RunSpec { len: marked_start, kind: RunKind::Plain },
            RunSpec { len: (display_len - marked_end) as usize, kind: RunKind::Plain },
        ],
{
    reveal_with_fuel(Seq::filter, 4);
    let all = marked_runs_all(display_len, marked_start, marked_end);
    assert(all.drop_last().drop_last().drop_last() =~= Seq::<RunSpec>::empty());
    assert(all.drop_last().drop_last() =~= seq![all[0]]);
    assert(all.drop_last() =~= seq![all[0], all[1]]);
    let f = all.filter(|run: RunSpec| nonempty_run(run));
    if 0 < marked_start < marked_end < display_len {
        assert(f =~= seq![all[0], all[1], all[2]]);
    }
    if 0 < marked_start == marked_end < display_len {
        assert(f =~= seq![all[0], all[2]]);
    }
}

/// A non-empty text without highlights, or an empty one without a
/// composition, is one plain run over the whole displayed text.
pub proof fn law_text_runs_single_plain(text_is_empty: bool, display_len: usize, marked: Option<
    (usize, usize),
>)
    ensures
        !text_is_empty ==> text_runs_spec(text_is_empty, display_len, None, marked) == seq![
            RunSpec { len: display_len, kind: RunKind::Plain },
        ],
        text_is_empty && marked is None ==> text_runs_spec(text_is_empty, display_len, None, marked)
            == seq![RunSpec { len: display_len, kind: RunKind::Plain }],
{
}

} // verus!
