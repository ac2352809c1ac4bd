use metars::metar::{CloudKind, CloudLayer, Clouds, TempBreakdown, Visibility, Wind};
use metars::{parse_metar, Element, Malformed, MetarParser, Pair, ParseError, Rule};

#[test]
fn visibility_fraction_parts() {
    assert_eq!(
        Some(Visibility::SM { numerator: 1, denominator: 2 }),
        Visibility::decode("1/2SM")
    );
    assert_eq!(
        Some(Visibility::SM { numerator: 3, denominator: 1 }),
        Visibility::decode("3SM")
    );
}

#[test]
fn visibility_rejects_other_text() {
    assert_eq!(None, Visibility::decode("SM"));
    assert_eq!(None, Visibility::decode("1/SM"));
    assert_eq!(None, Visibility::decode("/2SM"));
    assert_eq!(None, Visibility::decode("10KM"));
    assert_eq!(None, Visibility::decode("9999999999SM"));
    assert!("abc".parse::<Visibility>().is_err());
}

#[test]
fn cloud_kind_codes() {
    assert_eq!(Some(CloudKind::Few), CloudKind::from_code("FEW"));
    assert_eq!(None, CloudKind::from_code("FE"));
    assert_eq!(None, CloudKind::from_code("few"));
}

#[test]
fn single_cloud_layer_height() {
    let m = parse_metar("KRDU 031751Z 03006KT 10SM FEW015 11/M03").unwrap();
    assert_eq!(
        Clouds::Layers(vec![CloudLayer { kind: CloudKind::Few, agl: 1500 }]),
        m.clouds
    );
}

#[test]
fn highest_cloud_layer_fits() {
    let m = parse_metar("KRDU 031751Z 03006KT 10SM OVC999 11/M03").unwrap();
    assert_eq!(
        Clouds::Layers(vec![CloudLayer { kind: CloudKind::Overcast, agl: 99900 }]),
        m.clouds
    );
}

#[test]
fn negative_and_positive_temperatures() {
    let m = parse_metar("KTTA 031530Z 04008KT 10SM CLR 07/M02").unwrap();
    assert_eq!(7, m.temp);
    assert_eq!(-2, m.dewpoint);
    let m = parse_metar("KTTA 031530Z 04008KT 10SM CLR M12/M15").unwrap();
    assert_eq!(-12, m.temp);
    assert_eq!(-15, m.dewpoint);
}

#[test]
fn wind_with_and_without_gust() {
    let m = parse_metar("KBOS 031954Z 03006G19KT 10SM CLR 11/M03").unwrap();
    assert_eq!(Wind { direction: 30, speed: 6, gust_speed: Some(19) }, m.wind);
    let m = parse_metar("KTTA 031530Z AUTO 04008KT 10SM CLR 07/M02").unwrap();
    assert_eq!(Wind { direction: 40, speed: 8, gust_speed: None }, m.wind);
}

#[test]
fn optional_groups_default() {
    let m = parse_metar("KTTA 031530Z 04008KT 10SM 07/M02").unwrap();
    assert!(!m.automated_report);
    assert_eq!(Clouds::Clear, m.clouds);
    assert_eq!(None, m.altimeter);
    assert_eq!(None, m.remarks);
}

#[test]
fn sky_clear_keyword() {
    let m = parse_metar("KTTA 031530Z 04008KT 10SM SKC 07/M02").unwrap();
    assert_eq!(Clouds::Clear, m.clouds);
}

#[test]
fn extra_spaces_between_groups() {
    let m = parse_metar("  KTTA   031530Z 04008KT  10SM CLR 07/M02 A3001  ").unwrap();
    assert_eq!("KTTA", m.station);
    assert_eq!(Some(3001), m.altimeter);
}

#[test]
fn remarks_ignore_unknown_tokens() {
    let m = parse_metar("KRDU 041351Z 00000KT 10SM 04/00 RMK SLP123 AO2 XYZ").unwrap();
    let r = m.remarks.unwrap();
    assert_eq!(Some("AO2".to_owned()), r.station_type);
    assert_eq!(None, r.temp_breakdown);
}

#[test]
fn remarks_temperature_breakdown() {
    let m = parse_metar("KRDU 041351Z 00000KT 10SM 04/00 RMK T10441056").unwrap();
    let r = m.remarks.unwrap();
    assert_eq!(None, r.station_type);
    assert_eq!(Some(TempBreakdown { temp: -44, dewpoint: -56 }), r.temp_breakdown);
}

#[test]
fn missing_visibility_is_missing_element() {
    assert_eq!(
        Err(ParseError::MissingElement(Element::Visibility)),
        parse_metar("KTTA 031530Z 04008KT CLR 07/M02")
    );
}

#[test]
fn missing_groups_are_malformed() {
    assert_eq!(
        Err(ParseError::MalformedInput(Malformed { position: 0, expected: Rule::Station })),
        parse_metar("")
    );
    assert_eq!(
        Err(ParseError::MalformedInput(Malformed { position: 5, expected: Rule::ObservationTime })),
        parse_metar("KTTA 04008KT 10SM CLR 07/M02")
    );
    assert_eq!(
        Err(ParseError::MalformedInput(Malformed { position: 18, expected: Rule::Wind })),
        parse_metar("KTTA 031530Z AUTO 10SM CLR 07/M02")
    );
    assert_eq!(
        Err(ParseError::MalformedInput(Malformed { position: 29, expected: Rule::TempDew })),
        parse_metar("KTTA 031530Z 04008KT 10SM CLR")
    );
}

#[test]
fn trailing_text_is_malformed() {
    assert_eq!(
        Err(ParseError::MalformedInput(Malformed { position: 37, expected: Rule::EndOfInput })),
        parse_metar("KTTA 031530Z 04008KT 10SM CLR 07/M02 FOO")
    );
}

#[test]
fn unknown_cloud_kind_is_malformed() {
    assert_eq!(
        Err(ParseError::MalformedInput(Malformed { position: 26, expected: Rule::TempDew })),
        parse_metar("KTTA 031530Z 04008KT 10SM XYZ010 07/M02")
    );
}

#[test]
fn oversized_visibility_is_malformed() {
    assert_eq!(
        Err(ParseError::MalformedInput(Malformed { position: 21, expected: Rule::TempDew })),
        parse_metar("KTTA 031530Z 04008KT 9999999999SM CLR 07/M02")
    );
    assert!(parse_metar("KTTA 031530Z 04008KT 999999999SM CLR 07/M02").is_ok());
}

#[test]
fn visibility_compares_distances() {
    assert_eq!(Visibility::decode("2/4SM").unwrap(), Visibility::decode("1/2SM").unwrap());
    assert_eq!(Visibility::decode("10/1SM").unwrap(), Visibility::decode("10SM").unwrap());
    assert_ne!(Visibility::decode("1/3SM").unwrap(), Visibility::decode("1/2SM").unwrap());
    assert_ne!(Visibility::decode("1/0SM").unwrap(), Visibility::decode("0/1SM").unwrap());
    assert_eq!(Visibility::decode("1/0SM").unwrap(), Visibility::decode("2/0SM").unwrap());
}

#[test]
fn unknown_cloud_kind_text_is_an_error() {
    assert!("XYZ".parse::<CloudKind>().is_err());
    assert_eq!(
        Err(ParseError::Unknown(Rule::Visibility)),
        "1/ASM".parse::<Visibility>()
    );
}

#[test]
fn grammar_tags_each_group() {
    let pairs = MetarParser::parse("KTTA 031530Z 04008KT 10SM FEW015 SCT020 07/M02 RMK AO2").unwrap();
    let rules: Vec<Rule> = pairs.iter().map(|p| p.rule).collect();
    assert_eq!(
        vec![
            Rule::Station,
            Rule::ObservationTime,
            Rule::Wind,
            Rule::Visibility,
            Rule::CloudLayer,
            Rule::CloudLayer,
            Rule::TempDew,
            Rule::RemarksKw,
            Rule::Remark,
        ],
        rules
    );
    assert_eq!(Pair { rule: Rule::Wind, start: 13, end: 20 }, pairs[2]);
}

#[test]
fn canonical_text_decodes_to_same_report() {
    let first = parse_metar("KTTA  031530Z AUTO 04008KT 0010SM 07/M02 RMK XYZ AO2 T00720021").unwrap();
    let again = parse_metar("KTTA 031530Z AUTO 04008KT 10SM CLR 07/M02 RMK AO2 T00720021").unwrap();
    assert_eq!(first, again);
}

#[test]
fn canonical_text_with_layers_and_fraction() {
    let first = parse_metar("KBOS 031954Z 03006G19KT 3/4SM BKN010 OVC055 M00/M05 A2992").unwrap();
    let again = parse_metar("KBOS 031954Z 03006G19KT 3/4SM BKN010 OVC055 00/M05 A2992").unwrap();
    assert_eq!(first, again);
    assert_eq!(0, first.temp);
}

#[test]
fn conforming_reports_decode() {
    for raw in [
        "KTTA 031530Z 04008KT 10SM 07/M02",
        "K1X9 311200Z 36099G99KT 1/16SM OVC999 M99/M99 A9999 RMK AO1 T19991999",
        "kbos 000000Z 00000KT 0SM SKC 00/00",
    ] {
        assert!(parse_metar(raw).is_ok(), "{}", raw);
    }
}

#[test]
fn missing_mandatory_groups_never_default() {
    for raw in [
        "031530Z 04008KT 10SM CLR 07/M02",
        "KTTA 031530Z 10SM CLR 07/M02",
        "KTTA 031530Z 04008KT 10SM CLR",
        "KTTA 031530Z 04008KT CLR 07/M02",
    ] {
        match parse_metar(raw) {
            Err(ParseError::MalformedInput(_)) | Err(ParseError::MissingElement(_)) => {}
            other => panic!("{}: {:?}", raw, other),
        }
    }
}
