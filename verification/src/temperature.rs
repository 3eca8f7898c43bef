//! 1-Wire temperature sensors: where a sensor's reading is, and the
//! temperature a reading reports (in thousandths of a degree Celsius).
use vstd::prelude::*;
use crate::numbers::{law_signed_decimal_parses_back, parse_i32, parse_i32_spec, signed_decimal};
use crate::params::{Params, string_desc};
use crate::text::{
    chars_of, concat, contains_seq, find_in, find_or_len, lemma_first_occurrence_is_found, line_pieces, lines_of,
    occurs_at, owned,
};

verus! {

broadcast use vstd::string::group_string_axioms;

/// The marker before the reading in a sensor file: `"t="`.
pub open spec fn t_marker() -> Seq<char> {
    seq!['t', '=']
}

/// The reading after one more line: a line holding `"t="` replaces it by the
/// integer after the first `"t="` (none if that text is not an `i32`); other
/// lines keep it.
pub open spec fn line_reading(previous: Option<int>, line: Seq<char>) -> Option<int> {
    if contains_seq(line, t_marker()) {
        parse_i32_spec(line.skip(find_or_len(line, t_marker()) + 2))
    } else {
        previous
    }
}

/// The reading of a sequence of lines: decided by the last line that holds `"t="`.
pub open spec fn reading_of(lines: Seq<Seq<char>>) -> Option<int>
    decreases lines.len(),
{
    if lines.len() == 0 {
        None
    } else {
        line_reading(reading_of(lines.drop_last()), lines.last())
    }
}

/// In a line made of a text without `"t="`, then `"t="`, then `rest`, the
/// first `"t="` is the one after the text.
proof fn lemma_marker_after_prefix(prefix: Seq<char>, rest: Seq<char>)
    requires
        !contains_seq(prefix, t_marker()),
    ensures
        contains_seq(prefix + t_marker() + rest, t_marker()),
        find_or_len(prefix + t_marker() + rest, t_marker()) == prefix.len(),
{
    let line = prefix + t_marker() + rest;
    let k = prefix.len() as int;
    assert(line.subrange(k, k + 2) =~= t_marker());
    assert(occurs_at(line, t_marker(), k));
    assert forall|j: int| 0 <= j < k implies !occurs_at(line, t_marker(), j) by {
        if occurs_at(line, t_marker(), j) {
            if j + 2 <= k {
                assert(prefix.subrange(j, j + 2) =~= line.subrange(j, j + 2));
                assert(occurs_at(prefix, t_marker(), j));
            } else {
                assert(line.subrange(j, j + 2)[1] == line[k]);
            }
        }
    }
    lemma_first_occurrence_is_found(line, t_marker(), k);
}

/// A sensor file reports the integer written after `"t="` on its last line:
/// whatever lines come before, a last line that is some text without `"t="`
/// followed by `"t="` and the decimal text of any `i32` (zero and negative
/// values included) reads as exactly that value.
pub proof fn law_reading_is_written_value(earlier: Seq<Seq<char>>, prefix: Seq<char>, x: int)
    requires
        !contains_seq(prefix, t_marker()),
        -0x8000_0000 <= x <= 0x7fff_ffff,
    ensures
        reading_of(earlier.push(prefix + t_marker() + signed_decimal(x))) == Some(x),
{
    let line = prefix + t_marker() + signed_decimal(x);
    lemma_marker_after_prefix(prefix, signed_decimal(x));
    assert(line.skip(prefix.len() as int + 2) =~= signed_decimal(x));
    law_signed_decimal_parses_back(x);
    let lines = earlier.push(line);
    assert(lines.drop_last() =~= earlier);
    assert(lines.last() == line);
}

/// Lines without `"t="` change nothing: the reading stays that of the lines
/// before them, and a file with no `"t="` at all has no reading.
pub proof fn law_lines_without_marker_keep_reading(earlier: Seq<Seq<char>>, line: Seq<char>)
    requires
        !contains_seq(line, t_marker()),
    ensures
        reading_of(earlier.push(line)) == reading_of(earlier),
        reading_of(seq![line]) is None,
{
    let lines = earlier.push(line);
    assert(lines.drop_last() =~= earlier);
    assert(lines.last() == line);
    let one = seq![line];
    assert(one.drop_last() =~= Seq::<Seq<char>>::empty());
    assert(one.last() == line);
    assert(reading_of(one.drop_last()) is None);
    assert(reading_of(one) == line_reading(reading_of(one.drop_last()), line));
}

/// The value after `"t="` on the last line of a sensor file that holds one,
/// if it is an integer; the sensor's temperature times 1000.
pub fn last_temperature(input: &str) -> (r: Option<i32>)
    ensures
        match r {
            Some(x) => reading_of(lines_of(input@)) == Some(x as int),
            None => reading_of(lines_of(input@)) is None,
        },
{
    let lines = line_pieces(input);
    let ghost views = lines@.map_values(|p: &str| p@);
    let marker = vec!['t', '='];
    assert(marker@ =~= t_marker());
    let mut result: Option<i32> = None;
    let mut i: usize = 0;
    while i < lines.len()
        invariant
            i <= lines.len(),
            views == lines@.map_values(|p: &str| p@),
            marker@ == t_marker(),
            match result {
                Some(x) => reading_of(views.take(i as int)) == Some(x as int),
                None => reading_of(views.take(i as int)) is None,
            },
        decreases lines.len() - i,
    {
        let line = lines[i];
        let v = chars_of(line);
        let off = find_in(&v, &marker);
        proof {
            assert(views.take(i + 1).drop_last() =~= views.take(i as int));
            assert(views.take(i + 1).last() == line@);
            if off == v.len() {
                assert(!contains_seq(line@, t_marker()));
            } else {
                assert(occurs_at(line@, t_marker(), off as int));
                assert(contains_seq(line@, t_marker()));
            }
        }
        if off < v.len() {
            let rest = line.substring_char(off + 2, v.len());
            assert(rest@ =~= line@.skip(off + 2));
            result = parse_i32(rest);
        }
        i += 1;
    }
    assert(views.take(lines.len() as int) =~= views);
    result
}

/// The file that holds the reading of a 1-Wire sensor:
/// `/sys/bus/w1/devices/<name>/w1_slave`.
pub fn w1_slave_path(sensor_name: &str) -> (r: String)
    ensures
        r@ == w1_devices_dir() + sensor_name@ + w1_slave_file(),
{
    let dir = "/sys/bus/w1/devices/";
    let file = "/w1_slave";
    proof {
        reveal_strlit("/sys/bus/w1/devices/");
        reveal_strlit("/w1_slave");
    }
    assert(dir@ =~= w1_devices_dir());
    assert(file@ =~= w1_slave_file());
    let with_dir = concat(dir, sensor_name);
    concat(with_dir.as_str(), file)
}

/// The file of the sensor named by the first argument of a call, which
/// must be a string argument.
pub fn w1_device_path(params: &Vec<Params>) -> (r: String)
    requires
        params.len() >= 1,
        params@[0].desc@ == string_desc(),
    ensures
        r@ == w1_devices_dir() + params@[0].arg@ + w1_slave_file(),
{
    w1_slave_path(params[0].get_as_str())
}

/// `"/sys/bus/w1/devices/"`.
pub open spec fn w1_devices_dir() -> Seq<char> {
    seq!['/', 's', 'y', 's', '/', 'b', 'u', 's', '/', 'w', '1', '/', 'd', 'e', 'v', 'i', 'c', 'e', 's', '/']
}

/// `"/w1_slave"`.
pub open spec fn w1_slave_file() -> Seq<char> {
    seq!['/', 'w', '1', '_', 's', 'l', 'a', 'v', 'e']
}

/// A sensor: its 1-Wire device name and the caption shown for it.
pub struct SensorNode {
    pub device_name: String,
    pub caption: String,
}

/// A sensor's result: the temperature in thousandths of a degree, if its
/// file held one, and its caption.
pub struct SensorReading {
    pub milli_celsius: Option<i32>,
    pub caption: String,
}

/// The configured sensors.
pub struct TemperatureArray {
    pub sensor_vec: Vec<SensorNode>,
}

impl TemperatureArray {
    /// An array of the given sensors.
    pub fn new(sensor_vec: Vec<SensorNode>) -> (r: TemperatureArray)
        ensures
            r.sensor_vec == sensor_vec,
    {
        TemperatureArray { sensor_vec }
    }

    /// The result of each sensor, in order, given the contents of each
    /// sensor's file in the same order.
    pub fn get(&self, readings: &Vec<String>) -> (r: Vec<SensorReading>)
        requires
            readings.len() == self.sensor_vec.len(),
        ensures
            r.len() == self.sensor_vec.len(),
            forall|i: int|
                0 <= i < r.len() ==> {
                    &&& #[trigger] r@[i].caption@ == self.sensor_vec@[i].caption@
                    &&& match r@[i].milli_celsius {
                        Some(x) => reading_of(lines_of(readings@[i]@)) == Some(x as int),
                        None => reading_of(lines_of(readings@[i]@)) is None,
                    }
                },
    {
        let mut res_vec: Vec<SensorReading> = Vec::new();
        let len = self.sensor_vec.len();
        let mut i: usize = 0;
        while i < len
            invariant
                i <= len,
                len == self.sensor_vec.len(),
                readings.len() == len,
                res_vec.len() == i,
                forall|j: int|
                    0 <= j < i ==> {
                        &&& #[trigger] res_vec@[j].caption@ == self.sensor_vec@[j].caption@
                        &&& match res_vec@[j].milli_celsius {
                            Some(x) => reading_of(lines_of(readings@[j]@)) == Some(x as int),
                            None => reading_of(lines_of(readings@[j]@)) is None,
                        }
                    },
            decreases len - i,
        {
            let t = last_temperature(readings[i].as_str());
            let caption = owned(self.sensor_vec[i].caption.as_str());
            res_vec.push(SensorReading { milli_celsius: t, caption });
            i += 1;
        }
        res_vec
    }

    /// Results of sources other than the sensors: none.
    pub fn get_other(&self) -> (r: String)
        ensures
            r@ == Seq::<char>::empty(),
    {
        String::new()
    }
}

} // verus!
