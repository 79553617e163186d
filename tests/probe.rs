use ping_plot::probe::{parse_ping_line, parse_ping_output, Latency, ProbeFailed};

fn latency(text: &str) -> f64 {
    String::from_utf8(text_of(text)).unwrap().parse::<f64>().unwrap()
}

fn text_of(line: &str) -> Vec<u8> {
    parse_ping_line(line.as_bytes()).unwrap().text()
}

#[test]
fn line_with_reading_gives_latency() {
    let line = "64 bytes from 8.8.8.8: icmp_seq=1 time=23.4 ms";
    let l = parse_ping_line(line.as_bytes()).unwrap();
    assert_eq!(l, Latency { whole: b"23".to_vec(), frac: b"4".to_vec() });
    assert_eq!(l.text(), b"23.4".to_vec());
    assert_eq!(latency(line), 23.4);
}

#[test]
fn line_without_from_fails() {
    let r = parse_ping_line(b"64 bytes 8.8.8.8: icmp_seq=1 time=23.4 ms");
    assert_eq!(r, Err(ProbeFailed));
}

#[test]
fn line_without_time_fails() {
    let r = parse_ping_line(b"64 bytes from 8.8.8.8: icmp_seq=1 ttl=117");
    assert_eq!(r, Err(ProbeFailed));
}

#[test]
fn reading_needs_fraction() {
    assert_eq!(parse_ping_line(b"from x time=23 ms"), Err(ProbeFailed));
    assert_eq!(parse_ping_line(b"from x time=.5 ms"), Err(ProbeFailed));
    assert_eq!(parse_ping_line(b"from x time=5. ms"), Err(ProbeFailed));
}

#[test]
fn last_reading_on_a_line_counts() {
    assert_eq!(text_of("from a time=1.5 time=x time=22.75 end"), b"22.75".to_vec());
}

#[test]
fn whole_digit_runs_are_taken() {
    assert_eq!(text_of("time=0123.4560ms from"), b"0123.4560".to_vec());
}

#[test]
fn output_uses_first_matching_line() {
    let out = b"PING 8.8.8.8 (8.8.8.8) 56(84) bytes of data.\n\
64 bytes from 8.8.8.8: icmp_seq=1 ttl=117 time=11.2 ms\n\
64 bytes from 8.8.8.8: icmp_seq=2 ttl=117 time=99.9 ms\n\
\n\
rtt min/avg/max/mdev = 11.2/11.2/11.2/0.000 ms\n";
    let l = parse_ping_output(true, out).unwrap();
    assert_eq!(l.text(), b"11.2".to_vec());
}

#[test]
fn reading_split_across_lines_is_not_read() {
    let out = b"from host time=\n12.5 ms\n";
    assert_eq!(parse_ping_output(true, out), Err(ProbeFailed));
}

#[test]
fn last_line_without_newline_is_read() {
    let out = b"header\nreply from host time=7.25 ms";
    assert_eq!(parse_ping_output(true, out).unwrap().text(), b"7.25".to_vec());
}

#[test]
fn failed_command_gives_probe_failed() {
    let out = b"64 bytes from 8.8.8.8: icmp_seq=1 time=23.4 ms\n";
    assert_eq!(parse_ping_output(false, out), Err(ProbeFailed));
}

#[test]
fn empty_output_gives_probe_failed() {
    assert_eq!(parse_ping_output(true, b""), Err(ProbeFailed));
}
