use textutils::cat::{cat_file, cat_run};
use textutils::head::{head_bytes, head_lines, head_run};
use textutils::numbering::render_number;
use textutils::passthrough::copy_run;
use textutils::source::SourceInput;
use textutils::text::{split_chunks, split_lines};

fn ok_source(name: &[u8], data: &[u8]) -> SourceInput {
    SourceInput { name: name.to_vec(), data: Ok(data.to_vec()) }
}

fn failed_source(name: &[u8], cause: &[u8]) -> SourceInput {
    SourceInput { name: name.to_vec(), data: Err(cause.to_vec()) }
}

#[test]
fn cat_plain_reproduces_input() {
    let input = b"foo\nbar\n".to_vec();
    assert_eq!(cat_file(&input, false, false), b"foo\nbar\n".to_vec());
}

#[test]
fn cat_plain_empty_input_gives_no_output() {
    let input = Vec::new();
    assert_eq!(cat_file(&input, false, false), Vec::<u8>::new());
}

#[test]
fn cat_plain_terminates_last_line() {
    let input = b"foo\nbar".to_vec();
    assert_eq!(cat_file(&input, false, false), b"foo\nbar\n".to_vec());
}

#[test]
fn cat_plain_is_idempotent() {
    let input = b"one\n\ntwo".to_vec();
    let once = cat_file(&input, false, false);
    let twice = cat_file(&once, false, false);
    assert_eq!(once, twice);
}

#[test]
fn cat_number_lines_scenario() {
    let input = b"x\n\ny\n".to_vec();
    assert_eq!(
        cat_file(&input, true, false),
        b"     1\tx\n     2\t\n     3\ty\n".to_vec()
    );
}

#[test]
fn cat_number_nonblank_scenario() {
    let input = b"x\n\ny\n".to_vec();
    assert_eq!(cat_file(&input, false, true), b"     1\tx\n\n     2\ty\n".to_vec());
}

#[test]
fn cat_number_restarts_per_file() {
    let inputs = vec![
        ok_source(b"a.txt", b"one\ntwo\n"),
        ok_source(b"b.txt", b"three\n"),
    ];
    let (out, errs) = cat_run(&inputs, true, false);
    assert_eq!(out, b"     1\tone\n     2\ttwo\n     1\tthree\n".to_vec());
    assert!(errs.is_empty());
}

#[test]
fn cat_run_reports_failure_and_continues() {
    let inputs = vec![
        failed_source(b"missing.txt", b"No such file or directory (os error 2)"),
        ok_source(b"b.txt", b"baz\n"),
    ];
    let (out, errs) = cat_run(&inputs, false, false);
    assert_eq!(out, b"baz\n".to_vec());
    assert_eq!(errs.len(), 1);
    assert_eq!(
        errs[0],
        b"Failed to open missing.txt: No such file or directory (os error 2)".to_vec()
    );
}

#[test]
fn head_lines_limit_below_count() {
    let input = b"a\nb\nc\n".to_vec();
    assert_eq!(head_lines(&input, 2), b"a\nb\n".to_vec());
}

#[test]
fn head_lines_limit_above_count_yields_whole_source() {
    let input = b"a\nb".to_vec();
    assert_eq!(head_lines(&input, 10), b"a\nb".to_vec());
}

#[test]
fn head_lines_keeps_terminators_intact() {
    let input = b"a\r\nb\n".to_vec();
    assert_eq!(head_lines(&input, 1), b"a\r\n".to_vec());
}

#[test]
fn head_bytes_exact_prefix() {
    let input = b"abcdef".to_vec();
    assert_eq!(head_bytes(&input, 4), b"abcd".to_vec());
}

#[test]
fn head_bytes_limit_above_length_yields_whole_source() {
    let input = b"abc".to_vec();
    assert_eq!(head_bytes(&input, 100), b"abc".to_vec());
}

#[test]
fn head_bytes_decodes_permissively() {
    // "é" is 0xC3 0xA9; cutting after the first byte leaves an invalid
    // sequence, which decodes to the replacement character.
    let input = "é".as_bytes().to_vec();
    assert_eq!(head_bytes(&input, 1), "\u{FFFD}".as_bytes().to_vec());
}

#[test]
fn head_banner_scenario_two_files() {
    let inputs = vec![ok_source(b"a.txt", b"foo\nbar\n"), ok_source(b"b.txt", b"baz\n")];
    let (out, errs) = head_run(&inputs, 1, None);
    assert_eq!(out, b"==> a.txt <==\nfoo\n\n==> b.txt <==\nbaz\n".to_vec());
    assert!(errs.is_empty());
}

#[test]
fn head_single_file_has_no_banner() {
    let inputs = vec![ok_source(b"a.txt", b"foo\nbar\n")];
    let (out, errs) = head_run(&inputs, 1, None);
    assert_eq!(out, b"foo\n".to_vec());
    assert!(errs.is_empty());
}

#[test]
fn head_run_bytes_mode() {
    let inputs = vec![ok_source(b"a.txt", b"foo\nbar\n"), ok_source(b"b.txt", b"baz\n")];
    let (out, errs) = head_run(&inputs, 10, Some(2));
    assert_eq!(out, b"==> a.txt <==\nfo\n==> b.txt <==\nba".to_vec());
    assert!(errs.is_empty());
}

#[test]
fn head_run_reports_failure_and_continues() {
    let inputs = vec![
        failed_source(b"missing.txt", b"No such file or directory (os error 2)"),
        ok_source(b"b.txt", b"baz\n"),
    ];
    let (out, errs) = head_run(&inputs, 10, None);
    // The banner still marks the surviving source (two were named), and
    // its index keeps the blank line before the banner.
    assert_eq!(out, b"\n==> b.txt <==\nbaz\n".to_vec());
    assert_eq!(errs.len(), 1);
    assert_eq!(
        errs[0],
        b"Error opening missing.txt: No such file or directory (os error 2)".to_vec()
    );
}

#[test]
fn copy_passes_source_through_unchanged() {
    let input = ok_source(b"-", b"alpha\nbeta\nalpha\n");
    assert_eq!(copy_run(&input), Ok(b"alpha\nbeta\nalpha\n".to_vec()));
}

#[test]
fn copy_aborts_on_open_failure() {
    let input = failed_source(b"missing.txt", b"No such file or directory (os error 2)");
    assert_eq!(
        copy_run(&input),
        Err(b"missing.txt: No such file or directory (os error 2)".to_vec())
    );
}

#[test]
fn line_numbers_right_aligned_in_six_columns() {
    assert_eq!(render_number(1), b"     1".to_vec());
    assert_eq!(render_number(42), b"    42".to_vec());
    assert_eq!(render_number(123456), b"123456".to_vec());
    assert_eq!(render_number(1234567), b"1234567".to_vec());
}

#[test]
fn cat_number_nonblank_skips_counter_on_blanks() {
    let input = b"a\n\n\nb\n".to_vec();
    assert_eq!(cat_file(&input, false, true), b"     1\ta\n\n\n     2\tb\n".to_vec());
}

#[test]
fn cat_number_lines_empty_input_gives_no_output() {
    let input = Vec::new();
    assert_eq!(cat_file(&input, true, false), Vec::<u8>::new());
}

#[test]
fn cat_numbering_restarts_after_failed_file() {
    let inputs = vec![
        ok_source(b"a.txt", b"one\n"),
        failed_source(b"missing.txt", b"No such file or directory (os error 2)"),
        ok_source(b"b.txt", b"two\n"),
    ];
    let (out, errs) = cat_run(&inputs, true, false);
    assert_eq!(out, b"     1\tone\n     1\ttwo\n".to_vec());
    assert_eq!(errs.len(), 1);
}

#[test]
fn head_lines_empty_source_gives_no_output() {
    let input = Vec::new();
    assert_eq!(head_lines(&input, 5), Vec::<u8>::new());
    assert_eq!(head_bytes(&input, 5), Vec::<u8>::new());
}

#[test]
fn chunks_and_lines_split_at_newlines() {
    let input = b"x\n\ny".to_vec();
    let chunks = split_chunks(&input);
    assert_eq!(chunks, vec![b"x\n".to_vec(), b"\n".to_vec(), b"y".to_vec()]);
    let lines = split_lines(&input);
    assert_eq!(lines, vec![b"x".to_vec(), b"".to_vec(), b"y".to_vec()]);
}
