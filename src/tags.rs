//! The tags of a training-centre document that the extractor reads, and the
//! tag paths under which each sample field may appear.
use vstd::prelude::*;

verus! {

/// Tags of a training-centre document that the extractor reads.
#[derive(Clone, Copy, PartialEq, Eq, Debug, Structural)]
pub enum Tag {
    Time,
    Position,
    LatitudeDegrees,
    LongitudeDegrees,
    AltitudeMeters,
    DistanceMeters,
    HeartRateBpm,
    Value,
    Cadence,
    Extensions,
    TPX,
    Speed,
    Watts,
    RunCadence,
    Activities,
    Activity,
    Lap,
    Track,
    Trackpoint,
}

/// The name of a tag, as it is written in a document.
pub open spec fn tag_name(t: Tag) -> Seq<char> {
    match t {
        Tag::Time => "Time"@,
        Tag::Position => "Position"@,
        Tag::LatitudeDegrees => "LatitudeDegrees"@,
        Tag::LongitudeDegrees => "LongitudeDegrees"@,
        Tag::AltitudeMeters => "AltitudeMeters"@,
        Tag::DistanceMeters => "DistanceMeters"@,
        Tag::HeartRateBpm => "HeartRateBpm"@,
        Tag::Value => "Value"@,
        Tag::Cadence => "Cadence"@,
        Tag::Extensions => "Extensions"@,
        Tag::TPX => "TPX"@,
        Tag::Speed => "Speed"@,
        Tag::Watts => "Watts"@,
        Tag::RunCadence => "RunCadence"@,
        Tag::Activities => "Activities"@,
        Tag::Activity => "Activity"@,
        Tag::Lap => "Lap"@,
        Tag::Track => "Track"@,
        Tag::Trackpoint => "Trackpoint"@,
    }
}

impl Tag {
    /// The name of the tag, as it is written in a document.
    pub fn as_ref(&self) -> (r: &'static str)
        ensures
            r@ == tag_name(*self),
    {
        match self {
            Tag::Time => "Time",
            Tag::Position => "Position",
            Tag::LatitudeDegrees => "LatitudeDegrees",
            Tag::LongitudeDegrees => "LongitudeDegrees",
            Tag::AltitudeMeters => "AltitudeMeters",
            Tag::DistanceMeters => "DistanceMeters",
            Tag::HeartRateBpm => "HeartRateBpm",
            Tag::Value => "Value",
            Tag::Cadence => "Cadence",
            Tag::Extensions => "Extensions",
            Tag::TPX => "TPX",
            Tag::Speed => "Speed",
            Tag::Watts => "Watts",
            Tag::RunCadence => "RunCadence",
            Tag::Activities => "Activities",
            Tag::Activity => "Activity",
            Tag::Lap => "Lap",
            Tag::Track => "Track",
            Tag::Trackpoint => "Trackpoint",
        }
    }
}

/// The optional fields of a [`crate::trackpoint::Trackpoint`].
#[derive(Clone, Copy, PartialEq, Eq, Debug, Structural)]
pub enum TrkPtField {
    Latitude,
    Longitude,
    Altitude,
    Distance,
    Heartrate,
    Cadence,
    Speed,
    Power,
}

/// The tag paths under which a field may appear, in order of priority.
pub open spec fn field_paths(f: TrkPtField) -> Seq<Seq<Tag>> {
    match f {
        TrkPtField::Latitude => seq![seq![Tag::Position, Tag::LatitudeDegrees]],
        TrkPtField::Longitude => seq![seq![Tag::Position, Tag::LongitudeDegrees]],
        TrkPtField::Altitude => seq![seq![Tag::AltitudeMeters]],
        TrkPtField::Distance => seq![seq![Tag::DistanceMeters]],
        TrkPtField::Heartrate => seq![seq![Tag::HeartRateBpm, Tag::Value]],
        TrkPtField::Cadence => seq![
            seq![Tag::Cadence],
            seq![Tag::Extensions, Tag::TPX, Tag::RunCadence],
        ],
        TrkPtField::Speed => seq![seq![Tag::Extensions, Tag::TPX, Tag::Speed]],
        TrkPtField::Power => seq![seq![Tag::Extensions, Tag::TPX, Tag::Watts]],
    }
}

/// Every field, in declaration order.
pub open spec fn all_fields() -> Seq<TrkPtField> {
    seq![
        TrkPtField::Latitude,
        TrkPtField::Longitude,
        TrkPtField::Altitude,
        TrkPtField::Distance,
        TrkPtField::Heartrate,
        TrkPtField::Cadence,
        TrkPtField::Speed,
        TrkPtField::Power,
    ]
}

/// The name of a field.
pub open spec fn field_name(f: TrkPtField) -> Seq<char> {
    match f {
        TrkPtField::Latitude => "Latitude"@,
        TrkPtField::Longitude => "Longitude"@,
        TrkPtField::Altitude => "Altitude"@,
        TrkPtField::Distance => "Distance"@,
        TrkPtField::Heartrate => "Heartrate"@,
        TrkPtField::Cadence => "Cadence"@,
        TrkPtField::Speed => "Speed"@,
        TrkPtField::Power => "Power"@,
    }
}

impl TrkPtField {
    /// The tag paths under which this field may appear, in order of priority:
    /// a reader takes the value of the first path that is present.
    pub fn get_tags(&self) -> (r: &'static [&'static [Tag]])
        ensures
            r@.len() == field_paths(*self).len(),
            forall|i: int| 0 <= i < r@.len() ==> #[trigger] r@[i]@ == field_paths(*self)[i],
    {
        match self {
            TrkPtField::Latitude => &[&[Tag::Position, Tag::LatitudeDegrees]],
            TrkPtField::Longitude => &[&[Tag::Position, Tag::LongitudeDegrees]],
            TrkPtField::Altitude => &[&[Tag::AltitudeMeters]],
            TrkPtField::Distance => &[&[Tag::DistanceMeters]],
            TrkPtField::Heartrate => &[&[Tag::HeartRateBpm, Tag::Value]],
            TrkPtField::Cadence => &[&[Tag::Cadence], &[Tag::Extensions, Tag::TPX, Tag::RunCadence]],
            TrkPtField::Speed => &[&[Tag::Extensions, Tag::TPX, Tag::Speed]],
            TrkPtField::Power => &[&[Tag::Extensions, Tag::TPX, Tag::Watts]],
        }
    }

    /// The name of the field.
    pub fn as_ref(&self) -> (r: &'static str)
        ensures
            r@ == field_name(*self),
    {
        match self {
            TrkPtField::Latitude => "Latitude",
            TrkPtField::Longitude => "Longitude",
            TrkPtField::Altitude => "Altitude",
            TrkPtField::Distance => "Distance",
            TrkPtField::Heartrate => "Heartrate",
            TrkPtField::Cadence => "Cadence",
            TrkPtField::Speed => "Speed",
            TrkPtField::Power => "Power",
        }
    }

    /// Every field, in declaration order.
    pub fn all() -> (r: Vec<TrkPtField>)
        ensures
            r@ == all_fields(),
    {
        let r = vec![
            TrkPtField::Latitude,
            TrkPtField::Longitude,
            TrkPtField::Altitude,
            TrkPtField::Distance,
            TrkPtField::Heartrate,
            TrkPtField::Cadence,
            TrkPtField::Speed,
            TrkPtField::Power,
        ];
        assert(r@ =~= all_fields());
        r
    }
}

} // verus!
