//! What the bot keeps of the status of the space, and what it tells of it.

use vstd::prelude::*;
use vstd::string::{StrSliceExecFns, StringExecFns};
use crate::digits::{decimal_digits, decimal_text};

verus! {

/// A sensor that counts the people who are present at one location.
#[derive(Debug, PartialEq)]
pub struct PeopleNowPresentSensor {
    pub location: Option<String>,
    pub value: u64,
}

/// The sensors of a status, as far as the bot reads them.
#[derive(Debug, PartialEq)]
pub struct Sensors {
    pub people_now_present: Option<Vec<PeopleNowPresentSensor>>,
}

/// The status of the space, as far as the bot reads it.
#[derive(Debug, PartialEq)]
pub struct Status {
    pub sensors: Option<Sensors>,
    pub cam: Option<Vec<String>>,
}

/// The last status of the space that was fetched.
pub struct SpaceApiClient {
    pub status: Status,
}

/// What is told of `value` people.
pub open spec fn presence_text(value: u64) -> Seq<char> {
    if value == 0 {
        "Coredump is closed\nNobody here right now."@
    } else if value == 1 {
        "Coredump is open\nOne person is present!"@
    } else {
        "Coredump is open\n"@ + decimal_digits(value as nat) + " people are present!"@
    }
}

/// The location of a sensor, or `unknown` where it has none.
pub open spec fn location_text(sensor: PeopleNowPresentSensor) -> Seq<char> {
    match sensor.location {
        Some(location) => location@,
        None => "unknown"@,
    }
}

/// The line of one sensor: a line feed, the location, a colon and what is
/// told of the people there.
pub open spec fn sensor_line(sensor: PeopleNowPresentSensor) -> Seq<char> {
    seq!['\n'] + location_text(sensor) + ": "@ + presence_text(sensor.value)
}

/// The lines of the sensors, in their order.
pub open spec fn presence_report(sensors: Seq<PeopleNowPresentSensor>) -> Seq<char>
    decreases sensors.len(),
{
    if sensors.len() == 0 {
        Seq::empty()
    } else {
        presence_report(sensors.drop_last()) + sensor_line(sensors.last())
    }
}

/// What is told of the people in the space: the report of the sensors, or
/// what is missing where there is none to report.
pub open spec fn spec_people_now_present(sensors: Option<Sensors>) -> Result<Seq<char>, Seq<char>> {
    match sensors {
        None => Err("response contains no sensors"@),
        Some(sensors) => match sensors.people_now_present {
            None => Err("response contains no sensors.people_now_present"@),
            Some(counters) => if counters@.len() == 0 {
                Err("response.sensors.people_now_present is empty"@)
            } else {
                Ok(presence_report(counters@))
            },
        },
    }
}

/// Whether a result holds the text that `expected` prescribes, as a report
/// or as an error.
pub open spec fn tells(result: Result<String, String>, expected: Result<Seq<char>, Seq<char>>) -> bool {
    match expected {
        Ok(text) => result is Ok && result->Ok_0@ == text,
        Err(text) => result is Err && result->Err_0@ == text,
    }
}

/// Adds the line of `sensor` to `report`.
fn push_sensor_line(report: &mut String, sensor: &PeopleNowPresentSensor)
    ensures
        final(report)@ == old(report)@ + sensor_line(*sensor),
{
    let ghost before = report@;
    report.push('\n');
    match &sensor.location {
        Some(location) => report.append(location.as_str()),
        None => report.append("unknown"),
    }
    report.append(": ");
    if sensor.value == 0 {
        report.append("Coredump is closed\nNobody here right now.");
    } else if sensor.value == 1 {
        report.append("Coredump is open\nOne person is present!");
    } else {
        report.append("Coredump is open\n");
        let count = decimal_text(sensor.value);
        report.append(count.as_str());
        report.append(" people are present!");
        assert(report@ =~= before + (seq!['\n'] + location_text(*sensor) + ": "@ + ("Coredump is open\n"@
            + decimal_digits(sensor.value as nat) + " people are present!"@)));
    }
    assert(report@ =~= before + sensor_line(*sensor));
}

/// Tells how many people are present at each location.
pub fn extract_people_now_present(sensors: &Option<Sensors>) -> (result: Result<String, String>)
    ensures
        tells(result, spec_people_now_present(*sensors)),
{
    match sensors {
        None => Err("response contains no sensors".to_owned()),
        Some(sensors) => match &sensors.people_now_present {
            None => Err("response contains no sensors.people_now_present".to_owned()),
            Some(counters) => {
                if counters.len() == 0 {
                    return Err("response.sensors.people_now_present is empty".to_owned());
                }
                let mut report = String::new();
                let mut i: usize = 0;
                while i < counters.len()
                    invariant
                        i <= counters.len(),
                        report@ == presence_report(counters@.take(i as int)),
                    decreases counters.len() - i,
                {
                    push_sensor_line(&mut report, &counters[i]);
                    assert(counters@.take(i + 1).drop_last() =~= counters@.take(i as int));
                    i = i + 1;
                }
                assert(counters@.take(counters@.len() as int) =~= counters@);
                Ok(report)
            },
        },
    }
}

/// Whether the last part of `path` begins at place `start`: behind a `/`
/// or at the start of `path`, with no `/` from there on.
pub open spec fn is_basename_start(path: Seq<char>, start: int) -> bool {
    &&& 0 <= start <= path.len()
    &&& start > 0 ==> path[start - 1] == '/'
    &&& forall|i: int| start <= i < path.len() ==> path[i] != '/'
}

/// The place where the last part of `path` begins.
pub open spec fn basename_start(path: Seq<char>) -> int {
    choose|start: int| is_basename_start(path, start)
}

/// The last part of `path`: what follows the last `/`, or all of `path`
/// where it holds no `/`.
pub open spec fn spec_basename(path: Seq<char>) -> Seq<char> {
    path.skip(basename_start(path))
}

/// The last part of a path begins at one place only.
pub proof fn lemma_basename_start(path: Seq<char>, start: int)
    requires
        is_basename_start(path, start),
    ensures
        basename_start(path) == start,
{
    let chosen = basename_start(path);
    if chosen < start {
        assert(path[start - 1] == '/');
    } else if start < chosen {
        assert(path[chosen - 1] == '/');
    }
}

impl SpaceApiClient {
    /// A client that has fetched nothing yet: its status holds no sensors and
    /// no webcams.
    pub fn new() -> (client: SpaceApiClient)
        ensures
            client.status.sensors is None,
            client.status.cam is None,
    {
        SpaceApiClient { status: Status { sensors: None, cam: None } }
    }

    /// Takes a status that was fetched in place of the last one.
    pub fn set_status(&mut self, status: Status)
        ensures
            final(self).status == status,
    {
        self.status = status;
    }

    /// Tells how many people are present, by the status that was fetched
    /// last.
    pub fn people_now_present(&self) -> (result: Result<String, String>)
        ensures
            tells(result, spec_people_now_present(self.status.sensors)),
    {
        extract_people_now_present(&self.status.sensors)
    }

    /// The last part of a path or of the path of a URL.
    pub fn basename<'a>(&self, path: &'a String) -> (name: &'a str)
        ensures
            name@ == spec_basename(path@),
    {
        let path = path.as_str();
        let total = path.unicode_len();
        let mut start: usize = 0;
        let mut i: usize = 0;
        while i < total
            invariant
                start <= i <= total == path@.len(),
                start > 0 ==> path@[start - 1] == '/',
                forall|k: int| start <= k < i ==> path@[k] != '/',
            decreases total - i,
        {
            if path.get_char(i) == '/' {
                start = i + 1;
            }
            i = i + 1;
        }
        let name = path.substring_char(start, total);
        proof {
            lemma_basename_start(path@, start as int);
            assert(path@.skip(start as int) =~= path@.subrange(start as int, total as int));
        }
        name
    }

    /// The URLs of the webcams of the space; none where the status names
    /// none.
    pub fn get_webcams(&self) -> (webcams: Vec<String>)
        ensures
            match self.status.cam {
                Some(cams) => webcams@ == cams@,
                None => webcams@.len() == 0,
            },
    {
        match &self.status.cam {
            Some(cams) => {
                let mut webcams: Vec<String> = Vec::new();
                let mut i: usize = 0;
                while i < cams.len()
                    invariant
                        i <= cams.len(),
                        webcams@ == cams@.take(i as int),
                    decreases cams.len() - i,
                {
                    webcams.push(cams[i].clone());
                    assert(cams@.take(i + 1) =~= cams@.take(i as int).push(cams@[i as int]));
                    i = i + 1;
                }
                assert(cams@.take(cams@.len() as int) =~= cams@);
                webcams
            },
            None => Vec::new(),
        }
    }
}

} // verus!
