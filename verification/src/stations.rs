//! The list of weather stations that measurement files are generated from:
//! each station's name and the text of its mean temperature.
use vstd::prelude::*;
use rand::seq::SliceRandom;
use crate::line::{
    is_measurement, line_error, lines_from, next_line, parse_line, station_part, temperature_part,
    text_lines, MeasurementError,
};

verus! {

/// ASCII `#`, which starts a comment line of the station list.
pub const COMMENT_BYTE: u8 = 35;

/// A weather station: its name and the text of its mean temperature.
#[derive(Debug, PartialEq, Eq)]
pub struct WeatherStation {
    pub station: Vec<u8>,
    pub temp: Vec<u8>,
}

/// The stations read so far, in the order they were added.
pub struct Stations(pub Vec<WeatherStation>);

/// A station as bytes: name and mean temperature text.
pub open spec fn station_model(w: WeatherStation) -> (Seq<u8>, Seq<u8>) {
    (w.station@, w.temp@)
}

impl View for Stations {
    type V = Seq<(Seq<u8>, Seq<u8>)>;

    open spec fn view(&self) -> Seq<(Seq<u8>, Seq<u8>)> {
        self.0@.map_values(|w: WeatherStation| station_model(w))
    }
}

/// Whether a line of the station list is a comment.
pub open spec fn is_comment(l: Seq<u8>) -> bool {
    l.len() > 0 && l[0] == COMMENT_BYTE
}

/// The stations that the lines of a station list give, in order: every
/// line that is not a comment is `name;temperature`.
pub open spec fn listed_stations(lines: Seq<Seq<u8>>) -> Seq<(Seq<u8>, Seq<u8>)>
    decreases lines.len(),
{
    if lines.len() == 0 {
        seq![]
    } else {
        let p = listed_stations(lines.drop_last());
        let l = lines.last();
        if is_comment(l) {
            p
        } else {
            p.push((station_part(l), temperature_part(l)))
        }
    }
}

/// Each line that is not a comment gives exactly one station, in order:
/// the stations of two runs of lines one after the other are those of the
/// first run, then those of the second; a single line gives its own
/// station, or none when it is a comment.
pub proof fn lemma_listed_stations_add(a: Seq<Seq<u8>>, b: Seq<Seq<u8>>)
    ensures
        listed_stations(a + b) == listed_stations(a) + listed_stations(b),
        b.len() == 1 && !is_comment(b[0]) ==> listed_stations(b) == seq![
            (station_part(b[0]), temperature_part(b[0])),
        ],
        b.len() == 1 && is_comment(b[0]) ==> listed_stations(b) == Seq::<(Seq<u8>, Seq<u8>)>::empty(),
    decreases b.len(),
{
    if b.len() == 0 {
        assert(a + b =~= a);
        assert(listed_stations(a) + listed_stations(b) =~= listed_stations(a));
    } else {
        assert((a + b).drop_last() =~= a + b.drop_last());
        assert((a + b).last() == b.last());
        lemma_listed_stations_add(a, b.drop_last());
        let l = b.last();
        assert(listed_stations(a) + listed_stations(b.drop_last()).push(
            (station_part(l), temperature_part(l)),
        ) =~= (listed_stations(a) + listed_stations(b.drop_last())).push(
            (station_part(l), temperature_part(l)),
        ));
        if b.len() == 1 {
            assert(b.drop_last() =~= Seq::<Seq<u8>>::empty());
            assert(b.last() == b[0]);
            assert(Seq::<(Seq<u8>, Seq<u8>)>::empty().push((station_part(l), temperature_part(l)))
                =~= seq![(station_part(l), temperature_part(l))]);
        }
    }
}

/// A list has as many stations as it has lines that are not comments, at
/// most one per line.
pub proof fn lemma_listed_stations_len(lines: Seq<Seq<u8>>)
    ensures
        listed_stations(lines).len() <= lines.len(),
        (forall|i: int| 0 <= i < lines.len() ==> !is_comment(#[trigger] lines[i]))
            ==> listed_stations(lines).len() == lines.len(),
    decreases lines.len(),
{
    if lines.len() > 0 {
        lemma_listed_stations_len(lines.drop_last());
        if forall|i: int| 0 <= i < lines.len() ==> !is_comment(#[trigger] lines[i]) {
            assert forall|i: int| 0 <= i < lines.drop_last().len() implies !is_comment(
                #[trigger] lines.drop_last()[i],
            ) by {
                assert(lines.drop_last()[i] == lines[i]);
            }
            assert(!is_comment(lines[lines.len() - 1]));
        }
    }
}

/// Whether every line of a station list is a comment or a measurement.
pub open spec fn valid_station_list(lines: Seq<Seq<u8>>) -> bool {
    forall|i: int| 0 <= i < lines.len() ==> is_comment(#[trigger] lines[i]) || is_measurement(lines[i])
}

/// What `read_stations` answers for a list with a bad line: the first one.
pub open spec fn first_bad_station(lines: Seq<Seq<u8>>, e: MeasurementError) -> bool {
    &&& e.line < lines.len()
    &&& !is_comment(lines[e.line as int])
    &&& !is_measurement(lines[e.line as int])
    &&& e.error == line_error(lines[e.line as int])
    &&& valid_station_list(lines.take(e.line as int))
}

/// The total length of the names of some stations.
pub open spec fn name_bytes(s: Seq<(Seq<u8>, Seq<u8>)>) -> nat
    decreases s.len(),
{
    if s.len() == 0 {
        0
    } else {
        name_bytes(s.drop_last()) + s.last().0.len()
    }
}

/// The total counts every name once, by its length in bytes: adding a
/// station adds the length of its name, and no station gives 0.
pub proof fn lemma_name_bytes_push(s: Seq<(Seq<u8>, Seq<u8>)>, name: Seq<u8>, temp: Seq<u8>)
    ensures
        name_bytes(s.push((name, temp))) == name_bytes(s) + name.len(),
        name_bytes(Seq::<(Seq<u8>, Seq<u8>)>::empty()) == 0,
{
    assert(s.push((name, temp)).drop_last() =~= s);
}

/// `SliceRandom::choose` with `rand::thread_rng()`: a reference to one of
/// the stations, picked at random, or `None` when there is none.
#[verifier::external_body]
fn choose_station(stations: &Vec<WeatherStation>) -> (r: Option<&WeatherStation>)
    ensures
        r is None <==> stations@.len() == 0,
        r matches Some(w) ==> exists|i: int| 0 <= i < stations@.len() && stations@[i] == *w,
{
    stations.choose(&mut rand::thread_rng())
}

impl Stations {
    /// No station.
    pub fn new() -> (r: Self)
        ensures
            r@ == Seq::<(Seq<u8>, Seq<u8>)>::empty(),
    {
        let r = Stations(Vec::new());
        assert(r@ =~= Seq::<(Seq<u8>, Seq<u8>)>::empty());
        r
    }

    /// Adds a station at the end.
    pub fn add_station(&mut self, name: Vec<u8>, temp: Vec<u8>)
        ensures
            final(self)@ == old(self)@.push((name@, temp@)),
    {
        let ghost before = self.0@;
        self.0.push(WeatherStation { station: name, temp });
        assert(self@ =~= old(self)@.push((name@, temp@))) by {
            assert(self.0@ =~= before.push(WeatherStation { station: name, temp }));
        }
    }

    /// How many stations there are.
    pub fn len(&self) -> (r: usize)
        ensures
            r == self@.len(),
    {
        self.0.len()
    }

    /// A copy of one of the stations, picked at random.
    pub fn get_random_station(&self) -> (r: WeatherStation)
        requires
            self@.len() > 0,
        ensures
            self@.contains(station_model(r)),
    {
        match choose_station(&self.0) {
            Some(w) => {
                let r = WeatherStation { station: w.station.clone(), temp: w.temp.clone() };
                proof {
                    let i = choose|i: int| 0 <= i < self.0@.len() && self.0@[i] == *w;
                    assert(r.station@ =~= w.station@);
                    assert(r.temp@ =~= w.temp@);
                    assert(self@[i] == station_model(r));
                }
                r
            },
            None => {
                proof {
                    assert(self.0@.len() == self@.len());
                }
                vstd::pervasive::unreached()
            },
        }
    }

    /// The total length of the stations' names, in bytes.
    pub fn total_name_bytes(&self) -> (r: u128)
        ensures
            r == name_bytes(self@),
    {
        let mut total: u128 = 0;
        let mut i: usize = 0;
        while i < self.0.len()
            invariant
                i <= self.0@.len(),
                total == name_bytes(self@.take(i as int)),
                total <= i * 0x1_0000_0000_0000_0000,
            decreases self.0@.len() - i,
        {
            proof {
                assert(self@.take(i + 1).drop_last() =~= self@.take(i as int));
            }
            total = total + self.0[i].station.len() as u128;
            i = i + 1;
        }
        assert(self@.take(i as int) =~= self@);
        total
    }
}

/// Reads a station list: the lines of `csv` (see `text_lines`), where a line
/// that starts with `#` is a comment and every other line is
/// `name;temperature`. Refuses the list at its first other line, an empty
/// one included.
pub fn read_stations(csv: &[u8]) -> (r: Result<Stations, MeasurementError>)
    ensures
        r is Ok <==> valid_station_list(text_lines(csv@)),
        r matches Ok(st) ==> st@ == listed_stations(text_lines(csv@)),
        r matches Err(e) ==> first_bad_station(text_lines(csv@), e),
{
    let ghost s = csv@;
    let ghost all = text_lines(s);
    let n = csv.len();
    let mut stations = Stations::new();
    let mut pos: usize = 0;
    let mut index: usize = 0;
    let ghost mut done: Seq<Seq<u8>> = seq![];
    while pos < n
        invariant
            s == csv@,
            n == s.len(),
            all == text_lines(s),
            pos <= n,
            index == done.len(),
            done.len() <= pos,
            all == done + lines_from(s, pos as int),
            valid_station_list(done),
            stations@ == listed_stations(done),
        decreases n - pos,
    {
        let (start, end, next) = next_line(csv, pos);
        let line = &csv[start..end];
        let ghost l = line@;
        assert(all == done.push(l) + lines_from(s, next as int)) by {
            assert(done + (seq![l] + lines_from(s, next as int)) =~= done.push(l) + lines_from(
                s,
                next as int,
            ));
        }
        assert(done.push(l).drop_last() =~= done);
        if end > start && csv[start] == COMMENT_BYTE {
            assert(is_comment(l));
        } else {
            assert(!is_comment(l));
            match parse_line(line) {
                Ok((name, temp)) => {
                    stations.add_station(name, temp);
                },
                Err(err) => {
                    proof {
                        assert(all[index as int] == l);
                        assert(all.take(index as int) =~= done);
                    }
                    return Err(MeasurementError { line: index, error: err });
                },
            }
        }
        proof {
            let d2 = done.push(l);
            assert forall|i: int| 0 <= i < d2.len() implies is_comment(#[trigger] d2[i])
                || is_measurement(d2[i]) by {
                if i < done.len() {
                    assert(d2[i] == done[i]);
                }
            }
            done = d2;
        }
        index = index + 1;
        pos = next;
    }
    assert(lines_from(s, pos as int) =~= Seq::<Seq<u8>>::empty());
    assert(all =~= done);
    Ok(stations)
}

} // verus!
