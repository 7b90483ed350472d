use redactor::runner::{parse_status, Runner};

#[test]
fn parse_status_reads_trimmed_decimal() {
    assert_eq!(Some(42), parse_status(&b" 42\n".to_vec()));
}

#[test]
fn parse_status_reads_zero() {
    assert_eq!(Some(0), parse_status(&b"0".to_vec()));
}

#[test]
fn parse_status_rejects_empty_contents() {
    assert_eq!(None, parse_status(&b"".to_vec()));
    assert_eq!(None, parse_status(&b" \n".to_vec()));
}

#[test]
fn parse_status_rejects_stray_bytes() {
    assert_eq!(None, parse_status(&b"12a3".to_vec()));
}

#[test]
fn parse_status_rejects_too_large_values() {
    assert_eq!(Some(2147483647), parse_status(&b"2147483647".to_vec()));
    assert_eq!(None, parse_status(&b"2147483648".to_vec()));
    assert_eq!(None, parse_status(&b"99999999999999999999".to_vec()));
}

#[test]
fn hash() {
    let runner = Runner::new(b"ruby stream.rb".to_vec());
    assert_eq!(2392779401433226153, runner.hash);
}

#[test]
fn script_name_is_hash_dot_sh() {
    let runner = Runner::new(b"ruby stream.rb".to_vec());
    assert_eq!(b"2392779401433226153.sh".to_vec(), runner.script_name());
}

#[test]
fn status_name_is_hash_dot_status() {
    let runner = Runner::new(b"ruby stream.rb".to_vec());
    assert_eq!(b"2392779401433226153.status".to_vec(), runner.status_name());
}

#[test]
fn script_text_wraps_command_and_status_file() {
    let runner = Runner::new(b"ruby stream.rb".to_vec());
    assert_eq!(
        b"#!/usr/bin/env bash\nruby stream.rb\nprintf $? > 2392779401433226153.status".to_vec(),
        runner.script_text()
    );
}
