use heaptrack_cut::line::argument;
use heaptrack_cut::rewrite::{FilterError, Rewriter};
use heaptrack_cut::run::run_main;

fn rewrite(skip: u64, preserve: bool, input: &str) -> Result<String, FilterError> {
    run_main(skip, preserve, input.as_bytes()).map(|o| String::from_utf8(o).unwrap())
}

#[test]
fn basic() {
    let output = run_main(
        1000,
        false,
        b"\
+ 0
c 7d0
+ 1
+ 2
+ 3
+ 4",
    )
    .unwrap();

    assert_eq!(
        String::from_utf8(output).unwrap(),
        "\
c 3e8
+ 0
+ 1
+ 2
+ 3\n"
    );
}

#[test]
fn preserve_time_keeps_time_line() {
    assert_eq!(
        rewrite(1000, true, "+ 0\nc 7d0\n+ 1\n+ 2\n+ 3\n+ 4"),
        Ok("c 7d0\n+ 0\n+ 1\n+ 2\n+ 3\n".to_string())
    );
}

#[test]
fn empty_input_gives_empty_output() {
    assert_eq!(rewrite(1000, false, ""), Ok(String::new()));
}

#[test]
fn other_lines_pass_through_in_order() {
    let input = "v 10 100\ns foo\nc 1\nm libc.so\n+ 1\nc 7d0\ni 4 5\n+ 2\nX\n";
    assert_eq!(
        rewrite(1000, false, input),
        Ok("v 10 100\ns foo\nm libc.so\nc 3e8\ni 4 5\n+ 0\nX\n".to_string())
    );
}

#[test]
fn definitions_dropped_only_while_skipping() {
    let input = "a 1 2\nc 7d0\na 3 4\n";
    assert_eq!(rewrite(1000, false, input), Ok("c 3e8\na 3 4\n".to_string()));
}

#[test]
fn lines_before_first_time_command_are_discarded() {
    let input = "a 1\n+ 1\n- 1\nc 3e9\n+ 2\n";
    assert_eq!(rewrite(1000, false, input), Ok("c 1\n+ 0\n".to_string()));
}

#[test]
fn events_at_or_below_offset_are_dropped() {
    let input = "c 1\n+ 1\n+ 2\n+ 3\nc 7d0\n- 2\n+ 3\n+ 4\n- 3\n- 4\n+ 5\n";
    assert_eq!(
        rewrite(1000, false, input),
        Ok("c 3e8\n+ 0\n- 0\n+ 1\n".to_string())
    );
}

#[test]
fn first_written_index_is_zero_and_no_gaps() {
    let input = "c 1\n+ 1\n+ 2\nc 7d0\n+ 3\n+ 4\n- 3\n+ 5\n+ 3\n";
    assert_eq!(
        rewrite(1000, false, input),
        Ok("c 3e8\n+ 0\n+ 1\n- 0\n+ 2\n+ 0\n".to_string())
    );
}

#[test]
fn time_at_threshold_still_skips() {
    assert_eq!(rewrite(1000, false, "c 3e8\n+ 1\nc 3e9\n+ 2\n"), Ok("c 1\n+ 0\n".to_string()));
}

#[test]
fn zero_skip_reproduces_rebased_trace_without_events() {
    let trace = "c 1\na 1 2\ns foo\nc 7d0\nv 3\n";
    assert_eq!(rewrite(0, false, trace), Ok(trace.to_string()));
}

#[test]
fn malformed_time_is_an_error() {
    assert_eq!(rewrite(1000, false, "c 7z0\n"), Err(FilterError::MalformedNumber));
    assert_eq!(rewrite(1000, false, "c\n"), Err(FilterError::MalformedNumber));
    assert_eq!(rewrite(1000, false, "+ \n"), Err(FilterError::MalformedNumber));
}

#[test]
fn empty_argument_reads_as_zero() {
    assert_eq!(rewrite(1000, true, "c 7d0\nc  7d0\n"), Ok("c 7d0\nc  7d0\n".to_string()));
    assert_eq!(rewrite(0, false, "c 1\nc  7d0\n"), Ok("c 1\nc 0\n".to_string()));
}

#[test]
fn gap_in_rebased_indices_is_an_error() {
    assert_eq!(
        rewrite(1000, false, "c 7d0\n+ 3\n"),
        Err(FilterError::RebaseInvariantViolation)
    );
}

#[test]
fn time_going_back_before_cut_is_an_error() {
    assert_eq!(rewrite(1000, false, "c 7d0\nc 1\n"), Err(FilterError::TimeBeforeCut));
    assert_eq!(rewrite(1000, true, "c 7d0\nc 1\n"), Ok("c 7d0\nc 1\n".to_string()));
}

#[test]
fn carriage_return_and_extra_fields_are_ignored() {
    assert_eq!(rewrite(1000, false, "c 7d0 x\r\n+ 1 \r\n"), Ok("c 3e8\n+ 0\n".to_string()));
}

#[test]
fn process_line_reports_end_of_skipping() {
    let mut r = Rewriter::new(1000, false);
    let mut out = Vec::new();
    assert_eq!(r.process_line(b"c 3e8\n", &mut out), Ok(false));
    assert!(r.is_skipping());
    assert_eq!(r.process_line(b"c 7d0\n", &mut out), Ok(true));
    assert!(!r.is_skipping());
    assert_eq!(r.process_line(b"c 7d1\n", &mut out), Ok(false));
    assert_eq!(r.elapsed(), 2001);
    assert_eq!(out, b"c 3e8\nc 3e9\n".to_vec());
}

#[test]
fn process_line_error_leaves_output_alone() {
    let mut r = Rewriter::new(0, false);
    let mut out = Vec::new();
    assert_eq!(r.process_line(b"c 1\n", &mut out), Ok(true));
    assert_eq!(r.process_line(b"+ 5\n", &mut out), Err(FilterError::RebaseInvariantViolation));
    assert_eq!(out, b"c 1\n".to_vec());
    assert_eq!(r.largest_written, 0);
}

#[test]
fn argument_is_second_field() {
    assert_eq!(argument(b"c 7d0\n"), Some(&b"7d0"[..]));
    assert_eq!(argument(b"+ 12 34\n"), Some(&b"12"[..]));
    assert_eq!(argument(b"c\n"), None);
}

#[test]
fn preserve_time_changes_only_time_lines() {
    let input = "s x\nc 1\n+ 1\na 1\nc 7d0\na 2\n+ 2\nc 800\n- 2\n";
    assert_eq!(
        rewrite(1000, true, input),
        Ok("s x\nc 7d0\na 2\n+ 0\nc 800\n- 0\n".to_string())
    );
    assert_eq!(
        rewrite(1000, false, input),
        Ok("s x\nc 3e8\na 2\n+ 0\nc 418\n- 0\n".to_string())
    );
}
