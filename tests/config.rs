use tcx::config::GroupingError;
use tcx::{GroupBy, Grouping, Values, Window};

#[test]
fn grouping_from_text() {
    assert_eq!(
        Grouping::from_str("duration,length,600"),
        Ok(Grouping::Length(GroupBy::Duration, 600_000_000))
    );
    assert_eq!(
        Grouping::from_str("Distance,COUNT,4"),
        Ok(Grouping::Count(GroupBy::Distance, 4))
    );
    assert_eq!(
        Grouping::from_str("distance,length,0.5"),
        Ok(Grouping::Length(GroupBy::Distance, 500_000))
    );
    assert_eq!(Grouping::from_str("duration,count,3").unwrap().group_by(), GroupBy::Duration);
    assert_eq!(
        Grouping::from_str("duration,length,1e3"),
        Ok(Grouping::Length(GroupBy::Duration, 1_000_000_000))
    );
}

#[test]
fn grouping_errors() {
    assert_eq!(Grouping::from_str("duration,length"), Err(GroupingError::Shape));
    assert_eq!(Grouping::from_str("duration,length,1,2"), Err(GroupingError::Shape));
    assert_eq!(Grouping::from_str(""), Err(GroupingError::Shape));
    assert_eq!(Grouping::from_str("speed,length,1"), Err(GroupingError::GroupBy));
    assert_eq!(Grouping::from_str("duration,size,1"), Err(GroupingError::Mode));
    assert_eq!(Grouping::from_str("duration,length,x"), Err(GroupingError::Value));
    assert_eq!(Grouping::from_str("duration,length,-1"), Err(GroupingError::Value));
    assert_eq!(Grouping::from_str("duration,count,1.5"), Err(GroupingError::Value));
    assert_eq!(Grouping::from_str("duration,count,"), Err(GroupingError::Value));
    assert_eq!(
        Grouping::from_str("duration,count,18446744073709551616"),
        Err(GroupingError::Value)
    );
    assert_eq!(
        Grouping::from_str("duration,count,18446744073709551615"),
        Ok(Grouping::Count(GroupBy::Duration, u64::MAX))
    );
}

#[test]
fn debug_from_text() {
    assert_eq!(tcx::config::Debug::from_str("json"), Some(tcx::config::Debug::Json));
    assert_eq!(tcx::config::Debug::from_str("CSV"), Some(tcx::config::Debug::Csv));
    assert_eq!(tcx::config::Debug::from_str("xml"), None);
    assert_eq!(tcx::config::Debug::from_str(""), None);
}

fn window(duration: u128, distance: u128, elevation: u128, power: u128, heartrate: u128) -> Window {
    Window {
        values: Values {
            group_len: duration,
            duration,
            distance,
            elevation,
            power,
            heartrate,
        },
        qdh: 0,
    }
}

#[test]
fn window_averages() {
    // 10 s at 250 W and 150 bpm over 100 m with 5 m of climbing
    let w = window(10_000_000, 100_000_000, 5_000_000, 250_000_000 * 10_000_000, 150_000_000 * 10_000_000);
    assert_eq!(w.average_power(), Some(250_000_000));
    assert_eq!(w.average_heartrate(), Some(150_000_000));
    assert_eq!(w.average_speed(), Some(10_000_000));
    assert_eq!(w.gain_per_km(), Some(50_000_000));
}

#[test]
fn window_averages_undefined() {
    let w = window(0, 0, 1, 0, 0);
    assert_eq!(w.average_power(), None);
    assert_eq!(w.average_heartrate(), None);
    assert_eq!(w.average_speed(), None);
    assert_eq!(w.gain_per_km(), None);
    let big = window(1, u128::MAX, 0, 0, 0);
    assert_eq!(big.average_speed(), None);
}
