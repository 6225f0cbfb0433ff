use lib::trace::{trace_line, TRACE_LINE_MAX};

#[test]
fn trace_line_layout() {
    let line = trace_line(1700000000, 42, 1234, b"shm_open", 0x42, 3, b"/dnf_a");
    assert_eq!(line, b"1700000000.000042 1234 shm_open fl=0x42 r=3 /dnf_a\n".to_vec());
}

#[test]
fn trace_line_negative_numbers() {
    let line = trace_line(-5, -7, 0, b"stat", -1, -2, b"(null)");
    assert_eq!(line, b"-5.-00007 0 stat fl=0xffffffff r=-2 (null)\n".to_vec());
    let expected = format!("{}.{:06} {} {} fl=0x{:x} r={} ", -5, -7, 0, "stat", -1, -2);
    assert!(line.starts_with(expected.as_bytes()));
}

#[test]
fn trace_line_matches_std_formatting() {
    let cases: [(i32, i32, u32, i32, i32); 4] = [
        (0, 0, 1, 0, 0),
        (i32::MAX, 999999, u32::MAX, i32::MIN, i32::MIN),
        (i32::MIN, 1234567, 77, 0x1_0000, -38),
        (12, 5, 9, 0o100, 12),
    ];
    for &(sec, usec, pid, flags, ret) in &cases {
        let line = trace_line(sec, usec, pid, b"tag", flags, ret, b"/p");
        let expected = format!("{}.{:06} {} {} fl=0x{:x} r={} /p\n", sec, usec, pid, "tag", flags, ret);
        assert_eq!(line, expected.into_bytes());
    }
}

#[test]
fn trace_line_is_cut_to_length() {
    let path = vec![b'x'; 600];
    let line = trace_line(1, 2, 3, b"open", 0, 0, &path);
    assert_eq!(line.len(), TRACE_LINE_MAX);
    assert_eq!(*line.last().unwrap(), b'\n');
    assert!(line.starts_with(b"1.000002 3 open fl=0x0 r=0 xxx"));
    assert_eq!(line[TRACE_LINE_MAX - 2], b'x');
}
