use metars::metar::{CloudKind, Visibility, Wind};
use metars::Metar;

fn miles(v: &Visibility) -> f32 {
    match v {
        Visibility::SM { numerator, denominator } => *numerator as f32 / *denominator as f32,
    }
}

#[test]
fn lib_basic_metar() {
    let raw = "KTTA 031530Z AUTO 04008KT 10SM CLR 07/M02";

    let received: Metar = raw.parse().expect("should be parseable");

    assert_eq!("KTTA", received.station);
    assert_eq!("031530Z", received.observation_time);
    assert!(received.automated_report);
    assert_eq!(
        Wind {
            direction: 40,
            speed: 8,
            gust_speed: None
        },
        received.wind
    );
}

#[test]
fn visibility_single_digit_int() {
    let visibility = "3SM";
    let parsed: Visibility = visibility.parse().expect("parseable");

    assert_eq!(3.0, miles(&parsed));
}

#[test]
fn visibility_double_digit_int() {
    let visibility = "10SM";
    let parsed: Visibility = visibility.parse().expect("parseable");

    assert_eq!(10.0, miles(&parsed));
}

#[test]
fn visibility_fractional() {
    let visibility = "1/2SM";
    let parsed: Visibility = visibility.parse().expect("parseable");

    assert_eq!(0.5, miles(&parsed));
}

#[test]
fn cloud_kind_from_str() {
    let cases = vec![
        ("BKN", Some(CloudKind::Broken)),
        ("FEW", Some(CloudKind::Few)),
        ("OVC", Some(CloudKind::Overcast)),
        ("SCT", Some(CloudKind::Scattered)),
        ("UNKNOWN", None),
    ];
    for (name, expected) in cases {
        if let Some(want_value) = expected {
            assert_eq!(want_value, name.parse::<CloudKind>().expect("should parse"));
        } else {
            name.parse::<CloudKind>().expect_err("Should not be found.");
        }
    }
}
