use brc::groups::group_measurements;
use brc::line::{measurement_line, LineError, MeasurementError};

fn texts(v: &[&str]) -> Vec<Vec<u8>> {
    v.iter().map(|s| s.as_bytes().to_vec()).collect()
}

#[test]
fn keeps_temperature_texts_in_file_order() {
    let g = group_measurements("a;1.0\nb;-2.0\na;3.25\r\na;-7.5e0\n").unwrap();
    assert_eq!(g.len(), 2);
    assert_eq!(*g.get(b"a".as_slice()).unwrap().value(), texts(&["1.0", "3.25", "-7.5e0"]));
    assert_eq!(*g.get(b"b".as_slice()).unwrap().value(), texts(&["-2.0"]));
}

#[test]
fn refuses_empty_and_bad_lines() {
    assert_eq!(
        group_measurements("a;1\n\nb;2\n").err(),
        Some(MeasurementError { line: 1, error: LineError::MissingTemperature })
    );
    assert_eq!(
        group_measurements("a;1\nb;x\n").err(),
        Some(MeasurementError { line: 1, error: LineError::BadTemperature })
    );
    assert!(group_measurements("a;1\nb;2").is_ok());
    assert_eq!(group_measurements("").unwrap().len(), 0);
}

#[test]
fn reads_back_a_generated_file() {
    let ms = [("Oslo", "-7.3"), ("Abha", "18"), ("Oslo", "1.2"), ("Oslo", "-0.5"), ("Abha", "18.1")];
    let mut file = Vec::new();
    for (name, t) in ms {
        file.extend(measurement_line(name.as_bytes(), t.as_bytes()));
    }
    let g = group_measurements(std::str::from_utf8(&file).unwrap()).unwrap();
    assert_eq!(g.len(), 2);
    assert_eq!(*g.get(b"Oslo".as_slice()).unwrap().value(), texts(&["-7.3", "1.2", "-0.5"]));
    assert_eq!(*g.get(b"Abha".as_slice()).unwrap().value(), texts(&["18", "18.1"]));
}

#[test]
fn a_carriage_return_stays_only_on_an_unended_last_line() {
    let g = group_measurements("a;1\r\na;2\r\n").unwrap();
    assert_eq!(*g.get(b"a".as_slice()).unwrap().value(), texts(&["1", "2"]));
    assert_eq!(
        group_measurements("a;1\r\na;2\r").err(),
        Some(MeasurementError { line: 1, error: LineError::BadTemperature })
    );
}

#[test]
fn groups_names_in_any_script() {
    let g = group_measurements("Z\u{fc}rich;-3.5\n\u{6771}\u{4eac};12e0\nZ\u{fc}rich;inf\n").unwrap();
    assert_eq!(g.len(), 2);
    assert_eq!(*g.get("Z\u{fc}rich".as_bytes()).unwrap().value(), texts(&["-3.5", "inf"]));
    assert_eq!(*g.get("\u{6771}\u{4eac}".as_bytes()).unwrap().value(), texts(&["12e0"]));
}

#[test]
fn line_order_changes_only_the_order_of_texts() {
    let first = group_measurements("a;1\nb;2\na;3\n").unwrap();
    let second = group_measurements("a;3\nb;2\na;1").unwrap();
    assert_eq!(first.len(), second.len());
    for name in ["a", "b"] {
        let mut x = first.get(name.as_bytes()).unwrap().value().clone();
        let mut y = second.get(name.as_bytes()).unwrap().value().clone();
        x.sort();
        y.sort();
        assert_eq!(x, y);
    }
    assert_eq!(*second.get(b"a".as_slice()).unwrap().value(), texts(&["3", "1"]));
}
