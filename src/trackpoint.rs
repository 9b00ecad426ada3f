//! One sample of a training log.
use crate::tags::{Tag, TrkPtField};
use vstd::prelude::*;

verus! {

/// One sample of a training log.
///
/// The time is in microseconds since 1970-01-01 00:00 UTC. Every other field
/// is a fixed-point number in millionths of its unit: degrees for latitude
/// and longitude, metres for altitude and distance, beats per minute, steps
/// per minute, metres per second and watts.
#[derive(Clone, Copy, PartialEq, Eq, Debug, Default, Structural)]
pub struct Trackpoint {
    /// When the sample was recorded.
    pub time: i64,
    /// Latitude of the position.
    pub latitude: Option<i64>,
    /// Longitude of the position.
    pub longitude: Option<i64>,
    /// Altitude at the position.
    pub altitude: Option<i64>,
    /// Distance travelled since the start of the recording.
    pub distance: Option<i64>,
    /// Instantaneous heart rate.
    pub heartrate: Option<i64>,
    /// Instantaneous cadence.
    pub cadence: Option<i64>,
    /// Instantaneous speed.
    pub speed: Option<i64>,
    /// Instantaneous power.
    pub power: Option<i64>,
}

/// The value of one optional field of a sample.
pub open spec fn field_of(p: Trackpoint, f: TrkPtField) -> Option<i64> {
    match f {
        TrkPtField::Latitude => p.latitude,
        TrkPtField::Longitude => p.longitude,
        TrkPtField::Altitude => p.altitude,
        TrkPtField::Distance => p.distance,
        TrkPtField::Heartrate => p.heartrate,
        TrkPtField::Cadence => p.cadence,
        TrkPtField::Speed => p.speed,
        TrkPtField::Power => p.power,
    }
}

/// `p` with one optional field replaced.
pub open spec fn with_field(p: Trackpoint, f: TrkPtField, v: Option<i64>) -> Trackpoint {
    match f {
        TrkPtField::Latitude => Trackpoint { latitude: v, ..p },
        TrkPtField::Longitude => Trackpoint { longitude: v, ..p },
        TrkPtField::Altitude => Trackpoint { altitude: v, ..p },
        TrkPtField::Distance => Trackpoint { distance: v, ..p },
        TrkPtField::Heartrate => Trackpoint { heartrate: v, ..p },
        TrkPtField::Cadence => Trackpoint { cadence: v, ..p },
        TrkPtField::Speed => Trackpoint { speed: v, ..p },
        TrkPtField::Power => Trackpoint { power: v, ..p },
    }
}

/// Why reading or aggregating samples failed.
#[derive(Clone, PartialEq, Eq, Debug)]
pub enum TcxError {
    /// The sample at this position lacks a value that the operation needs.
    MissingRequiredField { sample: usize, tag: Tag },
    /// The text under this tag of the sample at this position is not a
    /// value of the expected kind.
    MalformedValue { sample: usize, tag: Tag, text: String },
    /// There is no sample to aggregate.
    EmptyInput,
    /// The window size or count is not usable.
    InvalidConfiguration,
    /// The samples go backwards in time or distance, or hold values beyond
    /// the range that the aggregation can represent.
    OutOfRange,
}

impl Trackpoint {
    /// A sample at `time` with no optional field.
    pub fn new(time: i64) -> (r: Self)
        ensures
            r.time == time,
            forall|f: TrkPtField| #[trigger] field_of(r, f) is None,
    {
        Trackpoint {
            time,
            latitude: None,
            longitude: None,
            altitude: None,
            distance: None,
            heartrate: None,
            cadence: None,
            speed: None,
            power: None,
        }
    }

    /// The value of one optional field.
    pub fn index(&self, index: &TrkPtField) -> (r: &Option<i64>)
        ensures
            *r == field_of(*self, *index),
    {
        match index {
            TrkPtField::Latitude => &self.latitude,
            TrkPtField::Longitude => &self.longitude,
            TrkPtField::Altitude => &self.altitude,
            TrkPtField::Distance => &self.distance,
            TrkPtField::Heartrate => &self.heartrate,
            TrkPtField::Cadence => &self.cadence,
            TrkPtField::Speed => &self.speed,
            TrkPtField::Power => &self.power,
        }
    }

    /// Mutable access to one optional field.
    pub fn index_mut(&mut self, index: &TrkPtField) -> (r: &mut Option<i64>)
        ensures
            *r == field_of(*old(self), *index),
            *final(self) == with_field(*old(self), *index, *final(r)),
    {
        match index {
            TrkPtField::Latitude => &mut self.latitude,
            TrkPtField::Longitude => &mut self.longitude,
            TrkPtField::Altitude => &mut self.altitude,
            TrkPtField::Distance => &mut self.distance,
            TrkPtField::Heartrate => &mut self.heartrate,
            TrkPtField::Cadence => &mut self.cadence,
            TrkPtField::Speed => &mut self.speed,
            TrkPtField::Power => &mut self.power,
        }
    }
}

} // verus!
