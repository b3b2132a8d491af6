//! Keeping every temperature text of every station, in the order of the file.
use vstd::prelude::*;
use vstd::string::StringSliceAdditionalSpecFns;
use dashmap::DashMap;
use crate::line::{
    is_measurement, lemma_measurement_file_ended, lemma_measurement_file_lines,
    lemma_measurement_record, lemma_read_lines_ended, line_error, measurement_file,
    measurement_record, next_read_line, parse_line, plain_name, read_lines, read_lines_from,
    station_part, temperature_part, writable, MeasurementError,
};
use crate::float_text::is_float_text;
use crate::table::{group_entries, group_insert, group_remove, new_group_table};

verus! {

/// The temperature texts that the non-empty lines of `lines` give for
/// `name`, in order.
pub open spec fn station_texts(lines: Seq<Seq<u8>>, name: Seq<u8>) -> Seq<Seq<u8>>
    decreases lines.len(),
{
    if lines.len() == 0 {
        seq![]
    } else {
        let p = station_texts(lines.drop_last(), name);
        let l = lines.last();
        if l.len() > 0 && station_part(l) == name {
            p.push(temperature_part(l))
        } else {
            p
        }
    }
}

/// Whether every line is a measurement (an empty line is not).
pub open spec fn every_line_measurement(lines: Seq<Seq<u8>>) -> bool {
    forall|i: int| 0 <= i < lines.len() ==> is_measurement(#[trigger] lines[i])
}

/// What `group_measurements` answers for a file with a line that is not a
/// measurement: the first such line.
pub open spec fn first_non_measurement(lines: Seq<Seq<u8>>, e: MeasurementError) -> bool {
    &&& e.line < lines.len()
    &&& !is_measurement(lines[e.line as int])
    &&& e.error == line_error(lines[e.line as int])
    &&& every_line_measurement(lines.take(e.line as int))
}

/// Whether a group table holds, for each station of `lines`, its
/// temperature texts in the order of the lines, and nothing else.
pub open spec fn groups_of(groups: DashMap<Vec<u8>, Vec<Vec<u8>>>, lines: Seq<Seq<u8>>) -> bool {
    &&& forall|k: Seq<u8>|
        #[trigger] group_entries(groups).contains_key(k) <==> station_texts(lines, k).len() > 0
    &&& forall|k: Seq<u8>|
        #[trigger] group_entries(groups).contains_key(k) ==> group_entries(groups)[k]
            == station_texts(lines, k)
}

/// Reads the lines of a measurement text as a buffered reader does (see
/// `read_lines`) and keeps, for each station, its temperature texts in the
/// order of the lines. Refuses the text at its first line that is not a
/// measurement; an empty line is not.
pub fn group_measurements(text: &str) -> (r: Result<DashMap<Vec<u8>, Vec<Vec<u8>>>, MeasurementError>)
    ensures
        r is Ok <==> every_line_measurement(read_lines(text.spec_bytes())),
        r matches Ok(groups) ==> groups_of(groups, read_lines(text.spec_bytes())),
        r matches Err(e) ==> first_non_measurement(read_lines(text.spec_bytes()), e),
{
    let input = text.as_bytes();
    let ghost s = input@;
    let ghost all = read_lines(s);
    let n = input.len();
    let mut groups = new_group_table();
    let mut pos: usize = 0;
    let mut index: usize = 0;
    let ghost mut done: Seq<Seq<u8>> = seq![];
    while pos < n
        invariant
            s == input@,
            s == text.spec_bytes(),
            n == s.len(),
            all == read_lines(s),
            pos <= n,
            index == done.len(),
            done.len() <= pos,
            all == done + read_lines_from(s, pos as int),
            every_line_measurement(done),
            groups_of(groups, done),
        decreases n - pos,
    {
        let (start, end, next) = next_read_line(input, pos);
        let line = &input[start..end];
        let ghost l = line@;
        assert(all == done.push(l) + read_lines_from(s, next as int)) by {
            assert(done + (seq![l] + read_lines_from(s, next as int)) =~= done.push(l)
                + read_lines_from(s, next as int));
        }
        assert(done.push(l).drop_last() =~= done);
        match parse_line(line) {
            Ok((name, temp)) => {
                let mut texts = match group_remove(&mut groups, name.as_slice()) {
                    Some(v) => v,
                    None => Vec::new(),
                };
                let ghost before = texts.deep_view();
                let ghost old_texts = texts@;
                proof {
                    assert(temp.deep_view() =~= temp@);
                }
                texts.push(temp);
                proof {
                    assert(texts@ == old_texts.push(temp));
                    assert forall|i: int| 0 <= i < texts@.len() implies #[trigger] texts.deep_view()[i]
                        == before.push(temperature_part(l))[i] by {
                        if i < old_texts.len() {
                            assert(texts@[i] == old_texts[i]);
                        }
                    }
                    assert(texts.deep_view() =~= before.push(temperature_part(l)));
                }
                group_insert(&mut groups, name, texts);
                proof {
                    let d2 = done.push(l);
                    assert(l.len() > 0);
                    assert forall|k: Seq<u8>|
                        #[trigger] group_entries(groups).contains_key(k) <==> station_texts(
                            d2,
                            k,
                        ).len() > 0 by {
                        if k != station_part(l) {
                            assert(station_texts(d2, k) == station_texts(done, k));
                        }
                    }
                    assert forall|k: Seq<u8>| #[trigger]
                        group_entries(groups).contains_key(k) implies group_entries(groups)[k]
                        == station_texts(d2, k) by {
                        if k != station_part(l) {
                            assert(station_texts(d2, k) == station_texts(done, k));
                        } else {
                            if before.len() == 0 {
                                assert(before =~= station_texts(done, k));
                            }
                        }
                    }
                    assert forall|i: int| 0 <= i < d2.len() implies is_measurement(
                        #[trigger] d2[i],
                    ) by {
                        if i < done.len() {
                            assert(d2[i] == done[i]);
                        }
                    }
                }
            },
            Err(err) => {
                proof {
                    assert(all[index as int] == l);
                    assert(all.take(index as int) =~= done);
                }
                return Err(MeasurementError { line: index, error: err });
            },
        }
        proof {
            done = done.push(l);
        }
        index = index + 1;
        pos = next;
    }
    assert(read_lines_from(s, pos as int) =~= Seq::<Seq<u8>>::empty());
    assert(all =~= done);
    Ok(groups)
}

/// The temperature texts written for `name` among the measurements `ms`, in order.
pub open spec fn generated_texts(ms: Seq<(Seq<u8>, Seq<u8>)>, name: Seq<u8>) -> Seq<Seq<u8>>
    decreases ms.len(),
{
    if ms.len() == 0 {
        seq![]
    } else {
        let p = generated_texts(ms.drop_last(), name);
        if ms.last().0 == name {
            p.push(ms.last().1)
        } else {
            p
        }
    }
}

proof fn lemma_generated_lines(ms: Seq<(Seq<u8>, Seq<u8>)>, name: Seq<u8>)
    requires
        writable(ms),
    ensures
        every_line_measurement(ms.map_values(|m: (Seq<u8>, Seq<u8>)| measurement_record(m.0, m.1))),
        station_texts(
            ms.map_values(|m: (Seq<u8>, Seq<u8>)| measurement_record(m.0, m.1)),
            name,
        ) == generated_texts(ms, name),
    decreases ms.len(),
{
    let lines = ms.map_values(|m: (Seq<u8>, Seq<u8>)| measurement_record(m.0, m.1));
    assert forall|i: int| 0 <= i < lines.len() implies is_measurement(#[trigger] lines[i]) by {
        lemma_measurement_record(ms[i].0, ms[i].1);
    }
    if ms.len() > 0 {
        let p = ms.drop_last();
        assert(writable(p)) by {
            assert forall|i: int| 0 <= i < p.len() implies plain_name((#[trigger] p[i]).0)
                && is_float_text(p[i].1) by {
                assert(p[i] == ms[i]);
            }
        }
        lemma_generated_lines(p, name);
        assert(lines.drop_last() =~= p.map_values(
            |m: (Seq<u8>, Seq<u8>)| measurement_record(m.0, m.1),
        ));
        let last = ms.last();
        assert(ms[ms.len() - 1] == last);
        lemma_measurement_record(last.0, last.1);
    }
}

/// Reading back the file of some writable measurements accepts every line
/// and keeps for each station exactly the temperature texts written for
/// it, in the order written, whatever the other stations.
pub proof fn lemma_read_back_measurement_file(ms: Seq<(Seq<u8>, Seq<u8>)>, name: Seq<u8>)
    requires
        writable(ms),
    ensures
        every_line_measurement(read_lines(measurement_file(ms))),
        station_texts(read_lines(measurement_file(ms)), name) == generated_texts(ms, name),
{
    lemma_measurement_file_ended(ms);
    lemma_read_lines_ended(measurement_file(ms), 0);
    lemma_measurement_file_lines(ms);
    lemma_generated_lines(ms, name);
}

proof fn lemma_station_texts_add(a: Seq<Seq<u8>>, b: Seq<Seq<u8>>, name: Seq<u8>)
    ensures
        station_texts(a + b, name) == station_texts(a, name) + station_texts(b, name),
    decreases b.len(),
{
    if b.len() == 0 {
        assert(a + b =~= a);
        assert(station_texts(a, name) + station_texts(b, name) =~= station_texts(a, name));
    } else {
        assert((a + b).drop_last() =~= a + b.drop_last());
        assert((a + b).last() == b.last());
        lemma_station_texts_add(a, b.drop_last(), name);
        assert(station_texts(a, name) + station_texts(b.drop_last(), name).push(
            temperature_part(b.last()),
        ) =~= (station_texts(a, name) + station_texts(b.drop_last(), name)).push(
            temperature_part(b.last()),
        ));
    }
}

/// Taking out one line takes its temperature text, if it gives `name` one,
/// out of the texts of `name`, and nothing else.
proof fn lemma_station_texts_remove(lines: Seq<Seq<u8>>, i: int, name: Seq<u8>)
    requires
        0 <= i < lines.len(),
    ensures
        station_texts(lines, name).to_multiset() == station_texts(lines.remove(i), name).to_multiset().add(
            station_texts(seq![lines[i]], name).to_multiset(),
        ),
{
    broadcast use vstd::seq_lib::lemma_multiset_commutative;

    let a = lines.take(i);
    let x = seq![lines[i]];
    let c = lines.skip(i + 1);
    assert(lines =~= a + x + c);
    assert(lines.remove(i) =~= a + c);
    lemma_station_texts_add(a + x, c, name);
    lemma_station_texts_add(a, x, name);
    lemma_station_texts_add(a, c, name);
    let ta = station_texts(a, name);
    let tx = station_texts(x, name);
    let tc = station_texts(c, name);
    assert((ta + tx + tc).to_multiset() =~= (ta + tc).to_multiset().add(tx.to_multiset()));
}

proof fn lemma_station_texts_permuted(l1: Seq<Seq<u8>>, l2: Seq<Seq<u8>>, name: Seq<u8>)
    requires
        l1.to_multiset() == l2.to_multiset(),
    ensures
        station_texts(l1, name).to_multiset() == station_texts(l2, name).to_multiset(),
    decreases l1.len(),
{
    broadcast use vstd::seq_lib::group_to_multiset_ensures;

    if l1.len() == 0 {
        assert(l1.to_multiset().len() == 0);
        assert(l2.to_multiset().len() == l2.len());
    } else {
        let x = l1.last();
        let p = l1.drop_last();
        assert(l1 =~= p.push(x));
        assert(l2.to_multiset().count(x) > 0);
        assert(l2.contains(x));
        let i = choose|i: int| 0 <= i < l2.len() && l2[i] == x;
        assert(l2.remove(i).to_multiset() =~= p.to_multiset());
        lemma_station_texts_permuted(p, l2.remove(i), name);
        lemma_station_texts_remove(l2, i, name);
        lemma_station_texts_remove(l1, l1.len() - 1, name);
        assert(l1.remove(l1.len() - 1) =~= p);
    }
}

/// Whether two texts have the same lines, read as a buffered reader reads
/// them, each as often, in any order.
pub open spec fn same_lines(s1: Seq<u8>, s2: Seq<u8>) -> bool {
    read_lines(s1).to_multiset() == read_lines(s2).to_multiset()
}

/// Grouping does not depend on the order of the lines: of two texts with
/// the same lines in any order, both are accepted or both refused, and each
/// station gets the same temperature texts, each as often, so the same
/// stations get any.
pub proof fn lemma_groups_ignore_line_order(s1: Seq<u8>, s2: Seq<u8>, name: Seq<u8>)
    requires
        same_lines(s1, s2),
    ensures
        every_line_measurement(read_lines(s1)) <==> every_line_measurement(read_lines(s2)),
        station_texts(read_lines(s1), name).to_multiset() == station_texts(
            read_lines(s2),
            name,
        ).to_multiset(),
        station_texts(read_lines(s1), name).len() == station_texts(read_lines(s2), name).len(),
{
    broadcast use vstd::seq_lib::group_to_multiset_ensures;

    let l1 = read_lines(s1);
    let l2 = read_lines(s2);
    lemma_station_texts_permuted(l1, l2, name);
    assert(station_texts(l1, name).to_multiset().len() == station_texts(l2, name).to_multiset().len());
    assert(every_line_measurement(l1) ==> every_line_measurement(l2)) by {
        if every_line_measurement(l1) {
            assert forall|j: int| 0 <= j < l2.len() implies is_measurement(#[trigger] l2[j]) by {
                assert(l2.contains(l2[j]));
                assert(l1.to_multiset().count(l2[j]) > 0);
                assert(l1.contains(l2[j]));
            }
        }
    }
    assert(every_line_measurement(l2) ==> every_line_measurement(l1)) by {
        if every_line_measurement(l2) {
            assert forall|j: int| 0 <= j < l1.len() implies is_measurement(#[trigger] l1[j]) by {
                assert(l1.contains(l1[j]));
                assert(l2.to_multiset().count(l1[j]) > 0);
                assert(l2.contains(l1[j]));
            }
        }
    }
}

} // verus!
