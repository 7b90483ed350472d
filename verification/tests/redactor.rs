use redactor::redactor::{noop, scan};

fn assert_output(secrets: &mut Vec<Vec<u8>>, input: &[u8], expected: &[u8]) {
    let out = scan(&input.to_vec(), secrets);
    assert_eq!(expected.to_vec(), out);
}

#[test]
fn noop_does_not_redact() {
    let input = b"This is my non-secret input".to_vec();
    let output = noop(&input);
    assert_eq!(b"This is my non-secret input".to_vec(), output);
}

#[test]
fn secret_at_start() {
    let mut secrets = vec![b"abcdefghij".to_vec()];
    assert_output(&mut secrets, b"abcdefghij rest of input", b"[secure] rest of input");
}

#[test]
fn short_secret_at_start() {
    let mut secrets = vec![b"aaaaa".to_vec(), b"bbb".to_vec()];
    assert_output(&mut secrets, b"bbb xxxxxx", b"[secure]xxxxx");
}

#[test]
fn secret_at_end() {
    let mut secrets = vec![b"abcdefghijk".to_vec()];
    assert_output(&mut secrets, b"rest of input abcdefghijk", b"rest of input [secure]");
}

#[test]
fn short_secret_at_end() {
    let mut secrets = vec![b"aaaaa".to_vec(), b"bbb".to_vec()];
    assert_output(&mut secrets, b"input aaaaa input bbb", b"input [secure] input [secure]");
}

#[test]
fn overlapping_secrets() {
    let mut secrets = vec![b"abcxxxxxxxx".to_vec(), b"xxxabcxxx".to_vec(), b"abc".to_vec()];
    assert_output(
        &mut secrets,
        b"input abcxxxxxxxx abc input input xxxabcxxx input input",
        b"input [secure] [secure]nput [secure]nput input",
    );
}

#[test]
fn input_without_any_secret_is_unchanged() {
    let mut secrets = vec![b"password1".to_vec(), b"hunter2".to_vec()];
    assert_output(
        &mut secrets,
        b"building the project... done in 3.2s",
        b"building the project... done in 3.2s",
    );
}

#[test]
fn empty_secret_set_passes_binary_bytes_through() {
    let mut secrets: Vec<Vec<u8>> = vec![];
    let input = vec![0u8, 7, 255, 10, 0, 128, 13];
    let out = scan(&input, &mut secrets);
    assert_eq!(input, out);
}

#[test]
fn empty_secret_values_are_inert() {
    let mut secrets = vec![b"".to_vec()];
    assert_output(&mut secrets, b"nothing to hide", b"nothing to hide");
}

#[test]
fn input_shorter_than_window_is_unchanged() {
    let mut secrets = vec![b"abcdefghij".to_vec()];
    assert_output(&mut secrets, b"abc", b"abc");
}

#[test]
fn sentinel_byte_in_input_becomes_marker() {
    let mut secrets = vec![b"xyz".to_vec()];
    assert_output(&mut secrets, b"a\x07bcd", b"a[secure]d");
}

#[test]
fn single_byte_secret_redacts_each_occurrence() {
    let mut secrets = vec![b"x".to_vec()];
    assert_output(&mut secrets, b"axbxc", b"a[secure]b[secure]c");
}

#[test]
fn secrets_are_sorted_longest_first() {
    let mut secrets = vec![b"bbb".to_vec(), b"aaaaa".to_vec()];
    let _ = scan(&b"no matches here".to_vec(), &mut secrets);
    assert_eq!(vec![b"aaaaa".to_vec(), b"bbb".to_vec()], secrets);
}

#[test]
fn output_length_accounts_for_each_event() {
    // One event over a five-byte window: 10 input bytes, 5 consumed by the
    // redacted span, 8 emitted as the marker.
    let mut secrets = vec![b"aaaaa".to_vec(), b"bbb".to_vec()];
    let out = scan(&b"bbb xxxxxx".to_vec(), &mut secrets);
    assert_eq!(10 - 5 + 8, out.len());
}

#[test]
fn rescan_of_redacted_output_is_noop() {
    let mut secrets = vec![b"aaaaa".to_vec(), b"bbb".to_vec()];
    let once = scan(&b"input aaaaa input bbb".to_vec(), &mut secrets);
    let twice = scan(&once, &mut secrets);
    assert_eq!(once, twice);
}
