use logcore::indexer::Indexer;


#[test]
fn indexes_line_starts() {
    let bytes = b"a\nbb\nccc";
    let mut ix = Indexer::new();
    ix.step(bytes, bytes.len());
    assert!(ix.is_done(bytes.len()));
    assert_eq!(ix.total_lines(), 3);
    assert_eq!(ix.line_span(bytes, 0, bytes.len()), Some((0, 2)));
    assert_eq!(ix.line_span(bytes, 1, bytes.len()), Some((2, 5)));
    assert_eq!(ix.line_span(bytes, 2, bytes.len()), Some((5, 8)));
}

#[test]
fn trailing_newline_makes_no_empty_line() {
    let bytes = b"a\nbb\n";
    let mut ix = Indexer::new();
    ix.step(bytes, bytes.len());
    assert_eq!(ix.total_lines(), 2);
    assert_eq!(ix.line_span(bytes, 0, bytes.len()), Some((0, 2)));
    assert_eq!(ix.line_span(bytes, 1, bytes.len()), Some((2, 5)));
}

#[test]
fn completed_lines_excludes_a_budget_split_partial_line() {
    let bytes = b"first line\nsecond line\n";
    let mut ix = Indexer::new();

    ix.step(bytes, 5);

    assert_eq!(ix.total_lines(), 1);
    assert_eq!(ix.completed_lines(), 0);
}

#[test]
fn completed_lines_advances_only_after_the_newline_is_processed() {
    let bytes = b"one\ntwo\n";
    let mut ix = Indexer::new();

    ix.step(bytes, 4);

    assert_eq!(ix.total_lines(), 2);
    assert_eq!(ix.completed_lines(), 1);
}

#[test]
fn completing_a_partial_line_advances_the_frontier_once() {
    let bytes = b"one\ntwo\n";
    let mut ix = Indexer::new();
    ix.step(bytes, 7);
    assert_eq!(ix.completed_lines(), 1);

    ix.step(bytes, 1);
    assert_eq!(ix.completed_lines(), 2);

    ix.step(bytes, usize::MAX);
    assert_eq!(ix.completed_lines(), 2);
}

#[test]
fn crlf_split_between_budgets_is_counted_once() {
    let bytes = b"one\r\ntwo\r\n";
    let mut ix = Indexer::new();

    ix.step(bytes, 4);
    assert_eq!(ix.completed_lines(), 0);

    ix.step(bytes, 1);
    assert_eq!(ix.completed_lines(), 1);

    ix.step(bytes, usize::MAX);
    assert_eq!(ix.completed_lines(), 2);
}

#[test]
fn every_byte_budget_split_matches_the_complete_line_oracle() {
    let bytes = b"one\r\ntwo\nthree";
    for split in 0..=bytes.len() {
        let mut ix = Indexer::new();
        ix.step(bytes, split);
        ix.step(bytes, usize::MAX);

        assert_eq!(ix.total_lines(), 3, "split at byte {split}");
        assert_eq!(ix.completed_lines(), 2, "split at byte {split}");
    }
}

#[test]
fn chunked_stepping_matches_single_step() {
    let bytes = b"line1\nline2\nline3\nline4";
    let mut a = Indexer::new();
    a.step(bytes, bytes.len());
    let mut b = Indexer::new();
    // 逐 3 字节步进,跨越 '\n' 边界
    while !b.is_done(bytes.len()) {
        b.step(bytes, 3);
    }
    assert_eq!(a.total_lines(), b.total_lines());
    for i in 0..a.total_lines() {
        assert_eq!(
            a.line_span(bytes, i, bytes.len()),
            b.line_span(bytes, i, bytes.len())
        );
    }
}

#[test]
fn growing_file_counts_line_added_after_trailing_newline() {
    let mut ix = Indexer::new();
    let first = b"line1\n";
    ix.step(first, first.len());
    assert_eq!(ix.total_lines(), 1);
    assert!(ix.is_done(first.len()));

    let grown = b"line1\nline2";
    ix.step(grown, grown.len());

    assert_eq!(ix.total_lines(), 2);
    assert_eq!(ix.line_span(grown, 1, grown.len()), Some((6, 11)));
}

#[test]
fn empty_is_zero_lines() {
    let mut ix = Indexer::new();
    ix.step(b"", 0);
    assert_eq!(ix.total_lines(), 0);
    assert!(ix.is_done(0));
}

#[test]
fn checkpoint_index_does_not_store_every_line_start() {
    let mut text = String::new();
    for i in 0..32 {
        text.push_str(&format!("line-{i}\n"));
    }
    let bytes = text.as_bytes();
    let mut ix = Indexer::with_checkpoint_stride(8);

    ix.step(bytes, bytes.len());

    assert_eq!(ix.total_lines(), 32);
    assert_eq!(ix.checkpoint_count(), 4);
    assert!(
        ix.checkpoint_count() < ix.total_lines(),
        "checkpoint index must not keep one u64 offset per line"
    );
}

#[test]
fn checkpoint_line_spans_are_correct_across_blocks() {
    let bytes = b"aa\nbbbb\nc\nddddd\nee\nfffff\ng\nhhhh\n";
    let mut ix = Indexer::with_checkpoint_stride(3);

    ix.step(bytes, bytes.len());

    assert_eq!(ix.line_span(bytes, 0, bytes.len()), Some((0, 3)));
    assert_eq!(ix.line_span(bytes, 2, bytes.len()), Some((8, 10)));
    assert_eq!(ix.line_span(bytes, 5, bytes.len()), Some((19, 25)));
    assert_eq!(ix.line_span(bytes, 7, bytes.len()), Some((27, 32)));
    assert_eq!(ix.line_span(bytes, 8, bytes.len()), None);
}

#[test]
fn checkpoint_line_spans_scan_ranges_sequentially() {
    let bytes = b"aa\nbbbb\nc\nddddd\nee\nfffff\ng\nhhhh\n";
    let mut ix = Indexer::with_checkpoint_stride(3);

    ix.step(bytes, bytes.len());

    assert_eq!(
        ix.line_spans(bytes, 2, 6, bytes.len()),
        vec![(8, 10), (10, 16), (16, 19), (19, 25)]
    );
}

#[test]
fn controllable_span_scan_reports_the_first_unvisited_line() {
    let bytes = b"zero\none\ntwo\nthree\n";
    let mut indexer = Indexer::new();
    indexer.step(bytes, bytes.len());
    let mut visited = Vec::new();
    let next = indexer.for_each_line_span_while(
        bytes,
        0,
        indexer.total_lines(),
        bytes.len(),
        |line, _, _| {
            visited.push(line);
            line < 1
        },
    );
    assert_eq!(visited, vec![0, 1]);
    assert_eq!(next, 2);
}

#[test]
fn prefix_span_scan_leaves_the_rejected_line_for_the_next_step() {
    let bytes = b"one\ntwo\nthree\n";
    let mut indexer = Indexer::new();
    indexer.step(bytes, bytes.len());
    let mut visited = Vec::new();

    let next = indexer.for_each_line_span_prefix(
        bytes,
        0,
        indexer.total_lines(),
        bytes.len(),
        |line, start, end| {
            if line == 1 {
                return false;
            }
            visited.push((line, start, end));
            true
        },
    );

    assert_eq!(next, 1);
    assert_eq!(visited, vec![(0, 0, 4)]);
}

#[test]
fn default_indexer_is_empty() {
    let ix = Indexer::default();
    assert_eq!(ix.total_lines(), 0);
    assert_eq!(ix.completed_lines(), 0);
    assert_eq!(ix.cursor(), 0);
    assert_eq!(ix.checkpoint_count(), 0);
}

#[test]
fn zero_stride_keeps_every_line_start() {
    let bytes = b"a\nb\nc\n";
    let mut ix = Indexer::with_checkpoint_stride(0);
    assert_eq!(ix.step(bytes, bytes.len()), bytes.len());
    assert_eq!(ix.total_lines(), 3);
    assert_eq!(ix.checkpoint_count(), 3);
}

#[test]
fn step_reports_bytes_read_and_stops_at_the_end() {
    let bytes = b"abc\ndef";
    let mut ix = Indexer::new();
    assert_eq!(ix.step(bytes, 2), 2);
    assert_eq!(ix.step(bytes, 100), 5);
    assert_eq!(ix.step(bytes, 100), 0);
    assert!(ix.is_done(bytes.len()));
    assert_eq!(ix.completed_lines(), 1);
    assert_eq!(ix.total_lines(), 2);
}

#[test]
fn frontier_cuts_spans_and_out_of_range_lines_give_nothing() {
    let bytes = b"one\ntwo\nthree";
    let mut ix = Indexer::new();
    ix.step(bytes, bytes.len());
    assert_eq!(ix.line_span(bytes, 1, 6), Some((4, 6)));
    assert_eq!(ix.line_span(bytes, 2, 100), Some((8, 13)));
    assert_eq!(ix.line_spans(bytes, 2, 1, bytes.len()), Vec::<(usize, usize)>::new());
    assert_eq!(ix.line_span(bytes, 3, bytes.len()), None);
}

#[test]
fn for_each_line_span_visits_every_requested_line() {
    let bytes = b"a\nbb\nccc\n";
    let mut ix = Indexer::with_checkpoint_stride(2);
    ix.step(bytes, bytes.len());
    let mut seen = Vec::new();
    ix.for_each_line_span(bytes, 1, 10, bytes.len(), |line, s, e| seen.push((line, s, e)));
    assert_eq!(seen, vec![(1, 2, 5), (2, 5, 9)]);
}
