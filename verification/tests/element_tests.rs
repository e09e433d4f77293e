use gpui_component::input::element::{
    cursor_layout, display_text, highlight_layout, highlight_line_ranges, highlighted_runs,
    line_lengths, line_number_label, line_number_labels, locate_offset, marked_runs,
    selection_segments, text_runs, total_wrapped_lines, visible_markers, LinePosition, RunKind,
    RunSpec, SelectionSegment,
};

fn pos(line: usize, column: usize) -> Option<LinePosition> {
    Some(LinePosition { line, column })
}

fn seg(line: usize, start: usize, end: usize) -> SelectionSegment {
    SelectionSegment { line, start, end }
}

#[test]
fn locate_offset_finds_line_and_column() {
    // "Hello\nWorld\n!" has lines of 5, 5 and 1 bytes.
    let lens = vec![5, 5, 1];
    assert_eq!(locate_offset(&lens, 0), pos(0, 0));
    assert_eq!(locate_offset(&lens, 3), pos(0, 3));
    // The end of a line is still on that line.
    assert_eq!(locate_offset(&lens, 5), pos(0, 5));
    // The byte after the newline starts the next line.
    assert_eq!(locate_offset(&lens, 6), pos(1, 0));
    assert_eq!(locate_offset(&lens, 11), pos(1, 5));
    assert_eq!(locate_offset(&lens, 12), pos(2, 0));
    assert_eq!(locate_offset(&lens, 13), pos(2, 1));
    // Beyond the text.
    assert_eq!(locate_offset(&lens, 14), None);
}

#[test]
fn locate_offset_on_empty_lines() {
    let lens = vec![0, 0, 3];
    assert_eq!(locate_offset(&lens, 0), pos(0, 0));
    assert_eq!(locate_offset(&lens, 1), pos(1, 0));
    assert_eq!(locate_offset(&lens, 2), pos(2, 0));
    assert_eq!(locate_offset(&lens, 5), pos(2, 3));
    assert_eq!(locate_offset(&lens, 6), None);
    assert_eq!(locate_offset(&vec![], 0), None);
}

#[test]
fn locate_round_trip_on_every_position() {
    let lens = vec![3, 0, 4, 2];
    let mut start = 0;
    for (line, len) in lens.iter().enumerate() {
        for column in 0..=*len {
            assert_eq!(locate_offset(&lens, start + column), pos(line, column));
        }
        start += len + 1;
    }
    assert_eq!(locate_offset(&lens, start), None);
}

#[test]
fn cursor_layout_places_cursor_and_selection() {
    let lens = vec![5, 5, 1];
    let layout = cursor_layout(&lens, 7, 2, 12, None, Some(7), Some((2, 12)));
    assert_eq!(layout.cursor, pos(1, 1));
    assert_eq!(layout.selection_start, pos(0, 2));
    assert_eq!(layout.selection_end, pos(2, 0));
    assert!(!layout.changed);

    let moved = cursor_layout(&lens, 8, 2, 12, None, Some(7), Some((2, 12)));
    assert!(moved.changed);
    let reselected = cursor_layout(&lens, 7, 3, 12, None, Some(7), Some((2, 12)));
    assert!(reselected.changed);
    let first_paint = cursor_layout(&lens, 7, 2, 12, None, None, None);
    assert!(first_paint.changed);
}

#[test]
fn cursor_layout_follows_the_composition() {
    let lens = vec![5, 5, 1];
    // While composing, the selection is a caret at the composition's end,
    // even for an empty composition.
    let layout = cursor_layout(&lens, 0, 1, 2, Some((7, 9)), Some(0), Some((9, 9)));
    assert_eq!(layout.selection_start, pos(1, 3));
    assert_eq!(layout.selection_end, pos(1, 3));
    assert!(!layout.changed);
    let empty = cursor_layout(&lens, 0, 1, 2, Some((4, 4)), Some(0), Some((1, 2)));
    assert_eq!(empty.selection_start, pos(0, 4));
    assert!(empty.changed);
}

#[test]
fn selection_segments_single_line() {
    let lens = vec![5, 5, 1];
    assert_eq!(selection_segments(&lens, 1, 4, None), vec![seg(0, 1, 4)]);
    // Reversed selections give the same segments.
    assert_eq!(selection_segments(&lens, 4, 1, None), vec![seg(0, 1, 4)]);
}

#[test]
fn selection_segments_across_lines() {
    let lens = vec![5, 5, 1];
    assert_eq!(
        selection_segments(&lens, 2, 13, None),
        vec![seg(0, 2, 5), seg(1, 0, 5), seg(2, 0, 1)]
    );
    assert_eq!(selection_segments(&lens, 5, 6, None), vec![seg(0, 5, 5), seg(1, 0, 0)]);
}

#[test]
fn selection_segments_end_beyond_text() {
    let lens = vec![5, 5];
    assert_eq!(selection_segments(&lens, 8, 100, None), vec![seg(1, 2, 5)]);
    assert_eq!(selection_segments(&lens, 50, 100, None), vec![]);
}

#[test]
fn selection_segments_nothing_to_paint() {
    let lens = vec![5, 5];
    assert_eq!(selection_segments(&lens, 3, 3, None), vec![]);
    // A non-empty composition hides the selection.
    assert_eq!(selection_segments(&lens, 1, 8, Some((2, 4))), vec![]);
    // An empty composition does not.
    assert_eq!(selection_segments(&lens, 1, 8, Some((4, 4))), vec![seg(0, 1, 5), seg(1, 0, 2)]);
}

#[test]
fn selection_segments_cover_selected_bytes() {
    let lens = vec![3, 0, 4, 2];
    let total: usize = lens.iter().sum::<usize>() + lens.len() - 1;
    for s in 0..=total {
        for e in s + 1..=total {
            let segs = selection_segments(&lens, s, e, None);
            let covered: usize = segs.iter().map(|g| g.end - g.start).sum();
            assert_eq!(covered + segs.len() - 1, e - s);
        }
    }
}

#[test]
fn line_lengths_split_at_newlines() {
    assert_eq!(line_lengths(""), vec![0]);
    assert_eq!(line_lengths("abc"), vec![3]);
    assert_eq!(line_lengths("a\nbc\n"), vec![1, 2, 0]);
    assert_eq!(line_lengths("\n\n"), vec![0, 0, 0]);
    // Lengths are in bytes.
    assert_eq!(line_lengths("héllo\n世界"), vec![6, 6]);
}

#[test]
fn line_lengths_span_the_text() {
    for text in ["", "a", "a\nb", "fn main() {\n    x\n}\n", "\n世\n界\n"] {
        let lens = line_lengths(text);
        assert_eq!(lens.iter().map(|l| l + 1).sum::<usize>(), text.len() + 1);
        assert_eq!(lens.len(), text.split('\n').count());
    }
}

#[test]
fn highlight_ranges_of_visible_lines() {
    // Lines: "ab" (0..3), "cde" (3..7), "" (7..8), "f" (8..10).
    let lens = vec![2, 3, 0, 1];
    let layout = highlight_line_ranges(&lens, 1, 2);
    assert_eq!(layout.skipped_offset, 3);
    assert_eq!(layout.line_ranges, vec![(3, 7), (7, 8)]);

    // The end line is included; past the last line nothing more is added.
    let all = highlight_line_ranges(&lens, 0, 10);
    assert_eq!(all.skipped_offset, 0);
    assert_eq!(all.line_ranges, vec![(0, 3), (3, 7), (7, 8), (8, 10)]);

    let beyond = highlight_line_ranges(&lens, 9, 12);
    assert_eq!(beyond.skipped_offset, 10);
    assert!(beyond.line_ranges.is_empty());

    let reversed = highlight_line_ranges(&lens, 2, 1);
    assert_eq!(reversed.skipped_offset, 7);
    assert!(reversed.line_ranges.is_empty());
}

#[test]
fn highlight_layout_of_text() {
    let layout = highlight_layout("ab\ncde\n\nf", 1, 1);
    assert_eq!(layout.skipped_offset, 3);
    assert_eq!(layout.line_ranges, vec![(3, 7)]);
    let ranges = highlight_layout("ab\ncde\n\nf", 0, 3).line_ranges;
    for w in ranges.windows(2) {
        assert_eq!(w[0].1, w[1].0);
    }
}

#[test]
fn visible_markers_are_filtered() {
    let markers = vec![Some((1, 2)), None, Some((5, 9)), Some((4, 20)), Some((30, 40))];
    // Skipped offset 4, visible lines 10..=12.
    assert_eq!(visible_markers(&markers, 4, 10, 12), vec![2, 4]);
    assert_eq!(visible_markers(&markers, 0, 0, 0), vec![0, 2, 3, 4]);
    assert_eq!(visible_markers(&markers, 50, 0, 100), Vec::<usize>::new());
}

#[test]
fn highlighted_runs_cut_and_drop_empty() {
    let ranges = vec![(3, 7), (7, 7), (7, 9)];
    let runs = highlighted_runs(3, &ranges, Some((7, 9)));
    assert_eq!(
        runs,
        vec![
            RunSpec { len: 3, kind: RunKind::Plain },
            RunSpec { len: 4, kind: RunKind::Highlight { style: 0, marked: false } },
            RunSpec { len: 2, kind: RunKind::Highlight { style: 2, marked: true } },
        ]
    );
    let total: usize = runs.iter().map(|r| r.len).sum();
    assert_eq!(total, 9);
    let no_skip = highlighted_runs(0, &vec![(0, 2)], None);
    assert_eq!(no_skip, vec![RunSpec { len: 2, kind: RunKind::Highlight { style: 0, marked: false } }]);
}

#[test]
fn marked_runs_cover_the_placeholder() {
    assert_eq!(
        marked_runs(10, 2, 5),
        vec![
            RunSpec { len: 2, kind: RunKind::Plain },
            RunSpec { len: 3, kind: RunKind::Marked },
            RunSpec { len: 5, kind: RunKind::Plain },
        ]
    );
    assert_eq!(marked_runs(5, 0, 5), vec![RunSpec { len: 5, kind: RunKind::Marked }]);
    assert_eq!(marked_runs(5, 5, 5), vec![RunSpec { len: 5, kind: RunKind::Plain }]);
    for (len, s, e) in [(10, 2, 5), (4, 0, 0), (7, 3, 7), (0, 0, 0)] {
        let total: usize = marked_runs(len, s, e).iter().map(|r| r.len).sum();
        assert_eq!(total, len);
    }
}

#[test]
fn text_runs_dispatch() {
    let ranges = vec![(0, 4)];
    assert_eq!(
        text_runs(false, 4, Some((0, &ranges)), None),
        vec![RunSpec { len: 4, kind: RunKind::Highlight { style: 0, marked: false } }]
    );
    assert_eq!(text_runs(false, 4, None, Some((1, 2))), vec![RunSpec { len: 4, kind: RunKind::Plain }]);
    assert_eq!(
        text_runs(true, 6, None, Some((0, 2))),
        vec![RunSpec { len: 2, kind: RunKind::Marked }, RunSpec { len: 4, kind: RunKind::Plain }]
    );
    // An empty placeholder gives one empty run.
    assert_eq!(text_runs(true, 0, None, None), vec![RunSpec { len: 0, kind: RunKind::Plain }]);
}

#[test]
fn total_wrapped_lines_counts_rows() {
    assert_eq!(total_wrapped_lines(&vec![]), 0);
    assert_eq!(total_wrapped_lines(&vec![0, 0, 0]), 3);
    assert_eq!(total_wrapped_lines(&vec![2, 0, 1]), 6);
}

#[test]
fn line_number_label_is_right_aligned() {
    assert_eq!(line_number_label(1, 0), "   1");
    assert_eq!(line_number_label(42, 0), "  42");
    assert_eq!(line_number_label(9999, 0), "9999");
    assert_eq!(line_number_label(12345, 0), "12345");
    assert_eq!(line_number_label(7, 2), "   7\n    \n    ");
    assert_eq!(line_number_label(0, 0), "   0");
}

#[test]
fn line_number_label_reads_back() {
    for n in [1usize, 9, 10, 99, 100, 1234, 9999, 10000, 123456] {
        let label = line_number_label(n, 0);
        assert_eq!(label.trim_start().parse::<usize>().unwrap(), n);
        assert_eq!(label, format!("{:>4}", n));
    }
}

#[test]
fn line_number_labels_of_visible_lines() {
    let wraps = vec![0, 1, 0, 0];
    let labels = line_number_labels(&wraps, 1, 3, Some(2));
    assert_eq!(labels.len(), 2);
    assert_eq!(labels[0].text, "   2\n    ");
    assert!(!labels[0].current);
    assert_eq!(labels[1].text, "   3");
    assert!(labels[1].current);
    // The end is clamped to the lines there are.
    assert_eq!(line_number_labels(&wraps, 2, 10, None).len(), 2);
    assert!(line_number_labels(&wraps, 3, 3, None).is_empty());
    assert!(line_number_labels(&wraps, 5, 9, None).is_empty());
}

#[test]
fn display_text_placeholder_mask_and_text() {
    assert_eq!(display_text("", "Search...", false), "Search...");
    assert_eq!(display_text("", "Search...", true), "Search...");
    assert_eq!(display_text("secret", "Password", true), "******");
    // One star per character, not per byte.
    assert_eq!(display_text("pä世", "", true), "***");
    assert_eq!(display_text("hello", "Name", false), "hello");
}
