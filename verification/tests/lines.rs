use brc::line::{
    measurement_line, next_line, parse_line, push_measurement, split_line, LineError,
};

#[test]
fn splits_a_measurement_line() {
    assert_eq!(parse_line(b"Hamburg;12.0"), Ok((b"Hamburg".to_vec(), b"12.0".to_vec())));
    assert_eq!(parse_line(b";5"), Ok((Vec::new(), b"5".to_vec())));
    assert_eq!(parse_line(b"a;1;2"), Ok((b"a".to_vec(), b"1".to_vec())));
    assert_eq!(parse_line(b"A;-1.25"), Ok((b"A".to_vec(), b"-1.25".to_vec())));
    assert_eq!(parse_line(b"A;1e3"), Ok((b"A".to_vec(), b"1e3".to_vec())));
    assert_eq!(parse_line(b"A;inf"), Ok((b"A".to_vec(), b"inf".to_vec())));
    assert_eq!(
        parse_line("Zürich;-3.4".as_bytes()),
        Ok(("Zürich".as_bytes().to_vec(), b"-3.4".to_vec()))
    );
    assert_eq!(split_line(b"Hamburg;12.0"), Ok((7, 12)));
    assert_eq!(split_line(b"a;1;2"), Ok((1, 3)));
}

#[test]
fn refuses_lines_that_are_not_measurements() {
    assert_eq!(parse_line(b"Hamburg"), Err(LineError::MissingTemperature));
    assert_eq!(parse_line(b""), Err(LineError::MissingTemperature));
    assert_eq!(parse_line(b"a;b"), Err(LineError::BadTemperature));
    assert_eq!(parse_line(b"a;"), Err(LineError::BadTemperature));
    assert_eq!(parse_line(b"a; 1"), Err(LineError::BadTemperature));
    assert_eq!(split_line(b"x"), Err(LineError::MissingTemperature));
}

#[test]
fn finds_the_lines_of_a_text() {
    let text = b"a;1\r\n\nb;2\rc";
    assert_eq!(next_line(text, 0), (0, 3, 5));
    assert_eq!(next_line(text, 5), (5, 5, 6));
    assert_eq!(next_line(text, 6), (6, 11, 11));
    assert_eq!(next_line(b"b;2\r", 0), (0, 3, 4));
    assert_eq!(next_line(b"x\n", 0), (0, 1, 2));
}

#[test]
fn writes_measurement_lines() {
    assert_eq!(measurement_line(b"Oslo", b"-7.3"), b"Oslo;-7.3\n".to_vec());
    let mut out = b"x".to_vec();
    push_measurement(&mut out, b"A", b"0.5");
    push_measurement(&mut out, b"B", b"-10");
    assert_eq!(out, b"xA;0.5\nB;-10\n".to_vec());
}

#[test]
fn measurement_lines_read_back() {
    for (name, t) in [(&b"Oslo"[..], &b"-7.3"[..]), (b"", b"0"), (b"St. John's", b"99.9"), (b"x", b"1e-3")] {
        let line = measurement_line(name, t);
        let without_newline = &line[..line.len() - 1];
        assert_eq!(parse_line(without_newline), Ok((name.to_vec(), t.to_vec())));
    }
}
