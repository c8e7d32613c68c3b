use dialogue_box::type_writer::TypeWriter;

#[test]
fn reveal_progress_matches_rate() {
    // Rate 10 chars/sec over a 10-character buffer.
    let mut tw = TypeWriter::new("abcdefghij".to_owned(), 10);
    tw.start();
    // 250 ms at 10 chars/sec reveals floor(2.5) = 2 characters.
    let advanced = tw.tick(250);
    assert_eq!(advanced, 2);
    assert_eq!(tw.revealed_text(), "ab");
    assert!(!tw.finished());
    // 650 ms more: total 900 ms, floor(9.0) = 9 characters.
    let advanced = tw.tick(650);
    assert_eq!(advanced, 7);
    assert_eq!(tw.revealed_text(), "abcdefghi");
    assert!(!tw.finished());
    // One more interval finishes one character short of the full length.
    let advanced = tw.tick(100);
    assert_eq!(advanced, 0);
    assert_eq!(tw.revealed_text(), "abcdefghi");
    assert!(tw.finished());
    // Once finished, further ticks change nothing.
    tw.tick(10_000);
    assert_eq!(tw.revealed_text(), "abcdefghi");
    assert!(tw.finished());
}

#[test]
fn tick_before_start_does_nothing() {
    let mut tw = TypeWriter::new("abc".to_owned(), 100);
    assert_eq!(tw.tick(1_000), 0);
    assert_eq!(tw.revealed_text(), "");
    assert!(!tw.finished());
}

#[test]
fn catch_up_consumes_multiple_intervals() {
    let mut tw = TypeWriter::new("abcdef".to_owned(), 1);
    tw.start();
    // Four whole seconds at 1 char/sec in a single large tick.
    assert_eq!(tw.tick(4_000), 4);
    assert_eq!(tw.revealed_text(), "abcd");
}

#[test]
fn restart_returns_to_the_beginning() {
    let mut tw = TypeWriter::new("hello there".to_owned(), 1000);
    tw.start();
    tw.tick(7);
    assert_eq!(tw.revealed_text(), "hello t");
    tw.restart();
    assert_eq!(tw.revealed_text(), "");
    assert!(!tw.finished());
    // Restart also applies to a finished writer.
    tw.tick(1_000_000);
    assert!(tw.finished());
    tw.restart();
    assert_eq!(tw.revealed_text(), "");
    assert!(!tw.finished());
}

#[test]
fn new_trims_surrounding_whitespace() {
    let mut tw = TypeWriter::new("  hi  ".to_owned(), 5);
    tw.start();
    tw.tick(1_000_000);
    assert!(tw.finished());
    // The trimmed buffer is "hi"; the reveal stops one character short.
    assert_eq!(tw.revealed_text(), "h");
}

#[test]
fn buffer_and_speed_can_be_swapped() {
    let mut tw = TypeWriter::new("abc".to_owned(), 10);
    tw.reset();
    tw.with_string("xyz".to_owned());
    // A zero rate is clamped to one character per second.
    tw.with_speed(0);
    tw.start();
    assert_eq!(tw.tick(1_000), 1);
    assert_eq!(tw.revealed_text(), "x");
}

#[test]
fn line_wrap_pads_partial_word() {
    let mut tw = TypeWriter::new("ab cdef gh".to_owned(), 1000);
    tw.start();
    tw.tick(3);
    assert_eq!(tw.revealed_text(), "ab ");
    // The next space is at offset 7, so four pad spaces cover "cdef".
    assert_eq!(tw.revealed_text_with_line_wrap(), "ab     ");
}

#[test]
fn line_wrap_without_trailing_space_is_plain_prefix() {
    let mut tw = TypeWriter::new("ab cdef gh".to_owned(), 1000);
    tw.start();
    tw.tick(4);
    assert_eq!(tw.revealed_text(), "ab c");
    assert_eq!(tw.revealed_text_with_line_wrap(), "ab c");
}

#[test]
fn line_wrap_with_no_further_space_adds_nothing() {
    let mut tw = TypeWriter::new("ab cdef".to_owned(), 1000);
    tw.start();
    tw.tick(3);
    assert_eq!(tw.revealed_text(), "ab ");
    // No space occurs at or after the cursor, so nothing is appended.
    assert_eq!(tw.revealed_text_with_line_wrap(), "ab ");
}
