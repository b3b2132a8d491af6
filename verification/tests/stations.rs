use brc::line::{LineError, MeasurementError};
use brc::stations::{read_stations, Stations, WeatherStation};

fn ws(name: &str, temp: &str) -> WeatherStation {
    WeatherStation { station: name.as_bytes().to_vec(), temp: temp.as_bytes().to_vec() }
}

#[test]
fn reads_a_station_list_with_comments() {
    let s = read_stations(b"# Adapted from a list\nAbha;18.0\r\nAbidjan;26.0\n#x\nZ;-3.55").unwrap();
    assert_eq!(s.len(), 3);
    assert_eq!(s.0, vec![ws("Abha", "18.0"), ws("Abidjan", "26.0"), ws("Z", "-3.55")]);
    assert_eq!(s.total_name_bytes(), 12);
}

#[test]
fn refuses_a_bad_station_line() {
    assert_eq!(
        read_stations(b"#c\nAbha;18.0\n\n").err(),
        Some(MeasurementError { line: 2, error: LineError::MissingTemperature })
    );
    assert_eq!(
        read_stations(b"Abha;warm\n").err(),
        Some(MeasurementError { line: 0, error: LineError::BadTemperature })
    );
}

#[test]
fn adds_and_picks_stations() {
    let mut s = Stations::new();
    assert_eq!(s.len(), 0);
    assert_eq!(s.total_name_bytes(), 0);
    s.add_station(b"Oslo".to_vec(), b"5.7".to_vec());
    s.add_station(b"Rome".to_vec(), b"15.2".to_vec());
    assert_eq!(s.len(), 2);
    for _ in 0..50 {
        let w = s.get_random_station();
        assert!(s.0.contains(&w));
    }
    let mut one = Stations::new();
    one.add_station(b"Only".to_vec(), b"-0.1".to_vec());
    assert_eq!(one.get_random_station(), ws("Only", "-0.1"));
}
