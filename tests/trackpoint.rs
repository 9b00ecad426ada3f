use chrono::{DateTime, Utc};
use tcx::{dedup, Node, Tag, TcxElement, TcxError, Trackpoint, TrkPtField};

const TIME_0: &str = "2022-12-31 12:00:00 UTC";
const DOC: &str = r#"<TCX xmlns="TCX">
      <Activities>
        <Activity>
          <Lap>
            <Track>
              <Trackpoint>
                <Time>2022-12-31 12:00:00 UTC</Time>
                <DistanceMeters>0</DistanceMeters>
              </Trackpoint>
              <Trackpoint>
                <Time>2022-12-31 12:00:01 UTC</Time>
                <DistanceMeters>3.6</DistanceMeters>
              </Trackpoint>
              <Trackpoint>
                <Time>2022-12-31 12:00:02 UTC</Time>
                <DistanceMeters>7.2</DistanceMeters>
              </Trackpoint>
            </Track>
          </Lap>
          <Lap>
            <Track>
              <Trackpoint>
                <Time>2022-12-31 12:00:02 UTC</Time>
                <DistanceMeters>7.2</DistanceMeters>
              </Trackpoint>
              <Trackpoint>
                <Time>2022-12-31 12:00:03 UTC</Time>
                <DistanceMeters>10.8</DistanceMeters>
              </Trackpoint>
              <Trackpoint>
                <Time>2022-12-31 12:00:04 UTC</Time>
                <DistanceMeters>14.4</DistanceMeters>
              </Trackpoint>
            </Track>
          </Lap>
        </Activity>
      </Activities>
    </TCX>"#;

const SAMPLE: &str = r#"<Trackpoint xmlns="arbitrary">
  <Time>2022-12-31 23:59:59 UTC</Time>
  <Position>
    <LongitudeDegrees>9.0</LongitudeDegrees>
    <LatitudeDegrees>48.640970</LatitudeDegrees>
  </Position>
  <AltitudeMeters>450.0</AltitudeMeters>
  <HeartRateBpm><Value>100</Value></HeartRateBpm>
  <Extensions>
    <TPX>
      <Watts>250</Watts>
      <RunCadence>90</RunCadence>
    </TPX>
  </Extensions>
  <AnotherTag>will do no harm</AnotherTag>
</Trackpoint>"#;

fn node_of(e: &minidom::Element) -> Node {
    Node {
        name: e.name().to_string(),
        text: e.text(),
        children: e.children().map(node_of).collect(),
    }
}

fn parse_doc(s: &str) -> Node {
    node_of(&s.parse::<minidom::Element>().unwrap())
}

fn micros(s: &str) -> i64 {
    s.parse::<DateTime<Utc>>().unwrap().timestamp_micros()
}

#[test]
fn test_trackpoint_from_tcx() {
    let points = Trackpoint::from_tcx(&parse_doc(DOC), |_: &Trackpoint| true).unwrap();
    assert_eq!(5, points.len());

    let time_0 = micros(TIME_0);
    for (k, p) in points.iter().enumerate() {
        let time = time_0 + (k as i64) * 1_000_000;
        let distance = Some((k as i64) * 3_600_000);
        assert_eq!(
            &Trackpoint {
                time,
                distance,
                ..Default::default()
            },
            p
        );
    }
}

#[test]
fn test_trackpoint_index() {
    let trackpoint = Trackpoint {
        time: micros("2022-12-31 12:00:00 UTC"),
        distance: Some(12_000_000),
        power: Some(200_000_000),
        ..Default::default()
    };

    assert_eq!(Some(12_000_000), *trackpoint.index(&TrkPtField::Distance));
    assert_eq!(Some(200_000_000), *trackpoint.index(&TrkPtField::Power));
    assert!(trackpoint.index(&TrkPtField::Heartrate).is_none())
}

#[test]
fn test_trackpoint_index_mut() {
    let mut trackpoint = Trackpoint {
        distance: Some(0),
        longitude: Some(9_000_000),
        ..Default::default()
    };
    *trackpoint.index_mut(&TrkPtField::Distance) = Some(42_000_000);
    *trackpoint.index_mut(&TrkPtField::Altitude) = Some(8_848_000_000);
    *trackpoint.index_mut(&TrkPtField::Longitude) = None;

    assert_eq!(Some(42_000_000), trackpoint.distance);
    assert_eq!(Some(8_848_000_000), trackpoint.altitude);
    assert!(trackpoint.longitude.is_none());
}

#[test]
fn parse_reads_every_field_and_ignores_other_tags() {
    let p = Trackpoint::parse(&parse_doc(SAMPLE), 0).unwrap();
    assert_eq!(p.time, micros("2022-12-31 23:59:59 UTC"));
    assert_eq!(p.longitude, Some(9_000_000));
    assert_eq!(p.latitude, Some(48_640_970));
    assert_eq!(p.altitude, Some(450_000_000));
    assert_eq!(p.distance, None);
    assert_eq!(p.heartrate, Some(100_000_000));
    assert_eq!(p.speed, None);
    assert_eq!(p.power, Some(250_000_000));
    assert_eq!(p.cadence, Some(90_000_000));
}

#[test]
fn parse_time_is_not_the_text_itself() {
    let doc = "<Trackpoint xmlns=\"x\"><Time>1970-01-01T00:00:01.5Z</Time></Trackpoint>";
    let p = Trackpoint::parse(&parse_doc(doc), 0).unwrap();
    assert_eq!(p.time, 1_500_000);
}

#[test]
fn primary_path_wins_over_alternate() {
    let doc = r#"<Trackpoint xmlns="x">
      <Time>2022-12-31 12:00:00 UTC</Time>
      <Cadence>80</Cadence>
      <Extensions><TPX><RunCadence>95</RunCadence></TPX></Extensions>
    </Trackpoint>"#;
    let p = Trackpoint::parse(&parse_doc(doc), 0).unwrap();
    assert_eq!(p.cadence, Some(80_000_000));
}

#[test]
fn alternate_path_used_when_primary_absent() {
    let doc = r#"<Trackpoint xmlns="x">
      <Time>2022-12-31 12:00:00 UTC</Time>
      <Extensions><TPX><RunCadence>95</RunCadence></TPX></Extensions>
    </Trackpoint>"#;
    let p = Trackpoint::parse(&parse_doc(doc), 0).unwrap();
    assert_eq!(p.cadence, Some(95_000_000));
}

#[test]
fn parse_missing_time_fails() {
    let doc = "<Trackpoint xmlns=\"x\"><DistanceMeters>1</DistanceMeters></Trackpoint>";
    let r = Trackpoint::parse(&parse_doc(doc), 3);
    assert_eq!(
        r,
        Err(TcxError::MissingRequiredField {
            sample: 3,
            tag: Tag::Time
        })
    );
}

#[test]
fn parse_malformed_value_fails() {
    let doc = r#"<Trackpoint xmlns="x">
      <Time>2022-12-31 12:00:00 UTC</Time>
      <Extensions><TPX><Watts>lots</Watts></TPX></Extensions>
    </Trackpoint>"#;
    let r = Trackpoint::parse(&parse_doc(doc), 1);
    assert_eq!(
        r,
        Err(TcxError::MalformedValue {
            sample: 1,
            tag: Tag::Watts,
            text: "lots".to_string()
        })
    );
}

#[test]
fn parse_malformed_time_fails() {
    let doc = "<Trackpoint xmlns=\"x\"><Time>yesterday</Time></Trackpoint>";
    let r = Trackpoint::parse(&parse_doc(doc), 0);
    assert_eq!(
        r,
        Err(TcxError::MalformedValue {
            sample: 0,
            tag: Tag::Time,
            text: "yesterday".to_string()
        })
    );
}

#[test]
fn from_tcx_reports_position_of_bad_sample() {
    let doc = r#"<TCX xmlns="x"><Activities><Activity><Lap><Track>
      <Trackpoint><Time>2022-12-31 12:00:00 UTC</Time></Trackpoint>
      <Trackpoint><DistanceMeters>1</DistanceMeters></Trackpoint>
    </Track></Lap></Activity></Activities></TCX>"#;
    let r = Trackpoint::from_tcx(&parse_doc(doc), |_: &Trackpoint| true);
    assert_eq!(
        r,
        Err(TcxError::MissingRequiredField {
            sample: 1,
            tag: Tag::Time
        })
    );
}

#[test]
fn from_tcx_skips_unexpected_nesting() {
    let doc = r#"<TCX xmlns="x"><Activities><Activity>
      <Trackpoint><Time>2022-12-31 12:00:00 UTC</Time></Trackpoint>
      <Lap><Other><Trackpoint><Time>2022-12-31 12:00:00 UTC</Time></Trackpoint></Other></Lap>
    </Activity></Activities></TCX>"#;
    let r = Trackpoint::from_tcx(&parse_doc(doc), |_: &Trackpoint| true).unwrap();
    assert!(r.is_empty());
}

#[test]
fn from_tcx_filters_before_dedup() {
    let doc = r#"<TCX xmlns="x"><Activities><Activity><Lap><Track>
      <Trackpoint><Time>2022-12-31 12:00:00 UTC</Time><DistanceMeters>1</DistanceMeters></Trackpoint>
      <Trackpoint><Time>2022-12-31 12:00:01 UTC</Time></Trackpoint>
      <Trackpoint><Time>2022-12-31 12:00:00 UTC</Time><DistanceMeters>1</DistanceMeters></Trackpoint>
    </Track></Lap></Activity></Activities></TCX>"#;
    let r = Trackpoint::from_tcx(&parse_doc(doc), |t: &Trackpoint| t.distance.is_some()).unwrap();
    assert_eq!(r.len(), 1);
    assert_eq!(r[0].distance, Some(1_000_000));
}

#[test]
fn from_tcx_twice_gives_same_samples() {
    let doc = parse_doc(DOC);
    let a = Trackpoint::from_tcx(&doc, |_: &Trackpoint| true).unwrap();
    let b = Trackpoint::from_tcx(&doc, |_: &Trackpoint| true).unwrap();
    assert_eq!(a, b);
}

#[test]
fn dedup_removes_only_consecutive_duplicates() {
    let a = Trackpoint::new(1);
    let b = Trackpoint::new(2);
    let r = dedup(vec![a, a, b, a, a, a, b]);
    assert_eq!(r, vec![a, b, a, b]);
    assert_eq!(dedup(r.clone()), r);
    assert!(dedup(vec![]).is_empty());
}

#[test]
fn element_lookups() {
    let n = parse_doc(SAMPLE);
    assert!(n.is_tag(Tag::Trackpoint));
    assert!(!n.is_tag(Tag::Track));
    assert_eq!(
        n.child_value(&[Tag::HeartRateBpm, Tag::Value]),
        Some("100".to_string())
    );
    assert_eq!(n.child_value(&[Tag::HeartRateBpm, Tag::Watts]), None);
    assert_eq!(n.child_value(&[]), Some(n.text.clone()));
    assert_eq!(n.get_child(Tag::Position).unwrap().children.len(), 2);
}

#[test]
fn tags_and_fields() {
    assert_eq!(Tag::RunCadence.as_ref(), "RunCadence");
    assert_eq!(Tag::TPX.as_ref(), "TPX");
    assert_eq!(TrkPtField::Heartrate.as_ref(), "Heartrate");
    assert_eq!(TrkPtField::all().len(), 8);
    let cadence = TrkPtField::Cadence.get_tags();
    assert_eq!(cadence.len(), 2);
    assert_eq!(cadence[0], &[Tag::Cadence]);
    assert_eq!(cadence[1], &[Tag::Extensions, Tag::TPX, Tag::RunCadence]);
    assert_eq!(
        TrkPtField::Latitude.get_tags(),
        &[&[Tag::Position, Tag::LatitudeDegrees][..]]
    );
}
