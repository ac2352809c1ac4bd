//! Field decoders, the report builder and the decode entry point.
use vstd::prelude::*;

use crate::grammar::{
    find_slash, has_shape, is_altimeter, is_layer, is_temp, is_temp_dew, is_visibility,
    is_visibility_at, is_wind, parse_groups, shaped, slash_index, Malformed, MetarParser, Pair,
    Rule,
};
use crate::metar::{
    kind_of_code, CloudKind, CloudLayer, Clouds, CloudsView, Metar, MetarView, Remarks,
    RemarksView, TempBreakdown, Visibility, Wind,
};
use crate::text::{
    all_digits, chars_of, digits_at, digits_value, is_digit, lemma_all_digits_sub,
    lemma_digits_value_bound, lemma_pow10_small, parse_u32, small_digits_value,
};

verus! {

/// A mandatory element of a report.
#[derive(Debug, Clone, Copy, PartialEq, Eq, Structural)]
pub enum Element {
    Station,
    ObservationTime,
    Wind,
    Visibility,
    Temperature,
    Dewpoint,
}

/// Why a report could not be decoded.
#[derive(Debug, Clone, Copy, PartialEq, Eq, Structural)]
pub enum ParseError {
    /// The grammar matched, but a mandatory element was never produced.
    MissingElement(Element),
    /// The report does not match the grammar.
    MalformedInput(Malformed),
    /// The text given as a group of this kind does not have its shape.
    Unknown(Rule),
}

// ----- field decoders -----

pub open spec fn wind_of(w: Seq<char>) -> Wind {
    Wind {
        direction: digits_value(w.subrange(0, 3)) as u16,
        speed: digits_value(w.subrange(3, 5)) as u8,
        gust_speed: if w.len() == 10 {
            Some(digits_value(w.subrange(6, 8)) as u8)
        } else {
            None
        },
    }
}

/// A run of digits as a `u32`, when it fits.
pub open spec fn u32_of(d: Seq<char>) -> Option<u32> {
    if digits_value(d) <= u32::MAX {
        Some(digits_value(d) as u32)
    } else {
        None
    }
}

/// The distance of a visibility group, without its two-letter unit: a whole
/// number, or a fraction split at its `/`.
pub open spec fn visibility_of(w: Seq<char>) -> Option<Visibility> {
    let d = w.subrange(0, w.len() - 2);
    let k = slash_index(d);
    if k == d.len() {
        match u32_of(d) {
            Some(v) => Some(Visibility::SM { numerator: v, denominator: 1 }),
            None => None,
        }
    } else {
        match (u32_of(d.subrange(0, k)), u32_of(d.subrange(k + 1, d.len() as int))) {
            (Some(p), Some(q)) => Some(Visibility::SM { numerator: p, denominator: q }),
            _ => None,
        }
    }
}

/// A cloud layer: a kind code, then the height in hundreds of feet.
pub open spec fn layer_of(w: Seq<char>) -> Option<CloudLayer> {
    match kind_of_code(w.subrange(0, 3)) {
        Some(kind) => Some(CloudLayer { kind, agl: (digits_value(w.subrange(3, 6)) * 100) as u32 }),
        None => None,
    }
}

/// Two digits of magnitude, negated when `M` comes first.
pub open spec fn temp_of(t: Seq<char>) -> i8 {
    if t.len() == 3 {
        (-(digits_value(t.subrange(1, 3)) as int)) as i8
    } else {
        digits_value(t) as i8
    }
}

pub open spec fn temp_dew_of(w: Seq<char>) -> (i8, i8) {
    let k = slash_index(w);
    (temp_of(w.subrange(0, k)), temp_of(w.subrange(k + 1, w.len() as int)))
}

pub open spec fn altimeter_of(w: Seq<char>) -> u16 {
    digits_value(w.subrange(1, 5)) as u16
}

/// The automated station type remark: `AO` and one digit.
pub open spec fn is_station_type(w: Seq<char>) -> bool {
    w.len() == 3 && w[0] == 'A' && w[1] == 'O' && is_digit(w[2])
}

pub open spec fn is_sign_digit(c: char) -> bool {
    c == '0' || c == '1'
}

/// The precise temperature remark: `T`, then a sign digit and three digits
/// for the temperature, then the same for the dewpoint.
pub open spec fn is_temp_breakdown(w: Seq<char>) -> bool {
    &&& w.len() == 9
    &&& w[0] == 'T'
    &&& is_sign_digit(w[1])
    &&& all_digits(w.subrange(2, 5))
    &&& is_sign_digit(w[5])
    &&& all_digits(w.subrange(6, 9))
}

/// Three digits of tenths, negative when the sign digit is `1`.
pub open spec fn tenths_of(sign: char, d: Seq<char>) -> i16 {
    if sign == '1' {
        (-(digits_value(d) as int)) as i16
    } else {
        digits_value(d) as i16
    }
}

pub open spec fn breakdown_of(w: Seq<char>) -> TempBreakdown {
    TempBreakdown {
        temp: tenths_of(w[1], w.subrange(2, 5)),
        dewpoint: tenths_of(w[5], w.subrange(6, 9)),
    }
}

/// What one remark token adds to the remarks decoded so far; a token that is
/// not recognized changes nothing.
pub open spec fn apply_remark(r: RemarksView, w: Seq<char>) -> RemarksView {
    if is_station_type(w) {
        RemarksView { station_type: Some(w), temp_breakdown: r.temp_breakdown }
    } else if is_temp_breakdown(w) {
        RemarksView { station_type: r.station_type, temp_breakdown: Some(breakdown_of(w)) }
    } else {
        r
    }
}

} // verus!

verus! {

/// The fields decoded so far, each absent until its group has been seen.
pub struct Accum {
    pub station: Option<Seq<char>>,
    pub observation_time: Option<Seq<char>>,
    pub automated_report: bool,
    pub wind: Option<Wind>,
    pub visibility: Option<Visibility>,
    pub clouds: Option<CloudsView>,
    pub temp: Option<i8>,
    pub dewpoint: Option<i8>,
    pub altimeter: Option<u16>,
    pub remarks: Option<RemarksView>,
}

pub open spec fn empty_accum() -> Accum {
    Accum {
        station: None,
        observation_time: None,
        automated_report: false,
        wind: None,
        visibility: None,
        clouds: None,
        temp: None,
        dewpoint: None,
        altimeter: None,
        remarks: None,
    }
}

/// The layers recorded so far.
pub open spec fn layers_so_far(c: Option<CloudsView>) -> Seq<CloudLayer> {
    match c {
        Some(CloudsView::Layers(ls)) => ls,
        _ => seq![],
    }
}

/// Records the group `rule` whose text is `w`; a group whose text cannot be
/// decoded gives its kind as the error.
pub open spec fn step(acc: Accum, rule: Rule, w: Seq<char>) -> Result<Accum, Rule> {
    match rule {
        Rule::Station => Ok(Accum { station: Some(w), ..acc }),
        Rule::ObservationTime => Ok(Accum { observation_time: Some(w), ..acc }),
        Rule::AutoKw => Ok(Accum { automated_report: true, ..acc }),
        Rule::Wind => Ok(Accum { wind: Some(wind_of(w)), ..acc }),
        Rule::Visibility => match visibility_of(w) {
            Some(v) => Ok(Accum { visibility: Some(v), ..acc }),
            None => Err(Rule::Visibility),
        },
        Rule::CloudsClear => Ok(Accum { clouds: Some(CloudsView::Clear), ..acc }),
        Rule::CloudLayer => match layer_of(w) {
            Some(l) => Ok(
                Accum { clouds: Some(CloudsView::Layers(layers_so_far(acc.clouds).push(l))), ..acc },
            ),
            None => Err(Rule::CloudLayer),
        },
        Rule::TempDew => Ok(
            Accum { temp: Some(temp_dew_of(w).0), dewpoint: Some(temp_dew_of(w).1), ..acc },
        ),
        Rule::Altimeter => Ok(Accum { altimeter: Some(altimeter_of(w)), ..acc }),
        Rule::RemarksKw => Ok(
            Accum { remarks: Some(RemarksView { station_type: None, temp_breakdown: None }), ..acc },
        ),
        Rule::Remark => match acc.remarks {
            Some(r) => Ok(Accum { remarks: Some(apply_remark(r, w)), ..acc }),
            None => Ok(acc),
        },
        Rule::EndOfInput => Ok(acc),
    }
}

/// Records the first `n` groups of `v`, matched in the report `s`, in order,
/// stopping at the first that cannot be decoded.
pub open spec fn accumulate(s: Seq<char>, v: Seq<Pair>, n: int) -> Result<Accum, Rule>
    decreases n,
{
    if n <= 0 {
        Ok(empty_accum())
    } else {
        match accumulate(s, v, n - 1) {
            Ok(acc) => step(acc, v[n - 1].rule, s.subrange(v[n - 1].start as int, v[n - 1].end as int)),
            Err(e) => Err(e),
        }
    }
}

/// The finished report, or the first missing mandatory element in the order
/// station, observation time, wind, visibility, temperature, dewpoint. Clouds
/// default to clear; the automation flag, altimeter and remarks stay as found.
pub open spec fn finish(acc: Accum) -> Result<MetarView, Element> {
    if acc.station is None {
        Err(Element::Station)
    } else if acc.observation_time is None {
        Err(Element::ObservationTime)
    } else if acc.wind is None {
        Err(Element::Wind)
    } else if acc.visibility is None {
        Err(Element::Visibility)
    } else if acc.temp is None {
        Err(Element::Temperature)
    } else if acc.dewpoint is None {
        Err(Element::Dewpoint)
    } else {
        Ok(
            MetarView {
                station: acc.station->Some_0,
                observation_time: acc.observation_time->Some_0,
                automated_report: acc.automated_report,
                wind: acc.wind->Some_0,
                visibility: acc.visibility->Some_0,
                clouds: match acc.clouds {
                    Some(c) => c,
                    None => CloudsView::Clear,
                },
                temp: acc.temp->Some_0,
                dewpoint: acc.dewpoint->Some_0,
                altimeter: acc.altimeter,
                remarks: acc.remarks,
            },
        )
    }
}

/// The outcome of decoding the report `s`: a grammar failure, else the first
/// group that cannot be decoded, else the finished report or the first missing
/// mandatory element.
pub open spec fn decode(s: Seq<char>) -> Result<MetarView, ParseError> {
    match parse_groups(s) {
        Err(m) => Err(ParseError::MalformedInput(m)),
        Ok(v) => match accumulate(s, v, v.len() as int) {
            Err(rule) => Err(ParseError::Unknown(rule)),
            Ok(acc) => match finish(acc) {
                Ok(m) => Ok(m),
                Err(e) => Err(ParseError::MissingElement(e)),
            },
        },
    }
}

} // verus!

verus! {

fn decode_wind(t: &Vec<char>, a: usize, b: usize) -> (r: Wind)
    requires
        a <= b <= t@.len(),
        is_wind(t@.subrange(a as int, b as int)),
    ensures
        r == wind_of(t@.subrange(a as int, b as int)),
{
    let ghost w = t@.subrange(a as int, b as int);
    proof {
        lemma_all_digits_sub(w.take(5), 0, 3);
        lemma_all_digits_sub(w.take(5), 3, 5);
        assert(w.take(5).subrange(0, 3) =~= t@.subrange(a as int, a + 3));
        assert(w.take(5).subrange(3, 5) =~= t@.subrange(a + 3, a + 5));
        assert(w.subrange(0, 3) =~= t@.subrange(a as int, a + 3));
        assert(w.subrange(3, 5) =~= t@.subrange(a + 3, a + 5));
        lemma_digits_value_bound(t@.subrange(a as int, a + 3));
        lemma_digits_value_bound(t@.subrange(a + 3, a + 5));
        lemma_pow10_small();
    }
    let direction = small_digits_value(t, a, a + 3) as u16;
    let speed = small_digits_value(t, a + 3, a + 5) as u8;
    let gust_speed = if b - a == 10 {
        proof {
            assert(w.subrange(6, 8) =~= t@.subrange(a + 6, a + 8));
            lemma_digits_value_bound(t@.subrange(a + 6, a + 8));
        }
        Some(small_digits_value(t, a + 6, a + 8) as u8)
    } else {
        None
    };
    Wind { direction, speed, gust_speed }
}

fn decode_visibility(t: &Vec<char>, a: usize, b: usize) -> (r: Option<Visibility>)
    requires
        a <= b <= t@.len(),
        is_visibility(t@.subrange(a as int, b as int)),
    ensures
        r == visibility_of(t@.subrange(a as int, b as int)),
{
    let ghost w = t@.subrange(a as int, b as int);
    let ghost d = w.subrange(0, w.len() - 2);
    assert(d =~= t@.subrange(a as int, b - 2));
    assert(w.take(w.len() - 2) =~= d);
    let e = b - 2;
    let k = find_slash(t, a, e);
    if k == e {
        match parse_u32(t, a, e) {
            Some(v) => Some(Visibility::SM { numerator: v, denominator: 1 }),
            None => None,
        }
    } else {
        assert(d.subrange(0, k - a) =~= t@.subrange(a as int, k as int));
        assert(d.take(k - a) =~= t@.subrange(a as int, k as int));
        assert(d.subrange(k - a + 1, d.len() as int) =~= t@.subrange(k + 1, e as int));
        assert(d.skip(k - a + 1) =~= t@.subrange(k + 1, e as int));
        let p = parse_u32(t, a, k);
        let q = parse_u32(t, k + 1, e);
        match (p, q) {
            (Some(p), Some(q)) => Some(Visibility::SM { numerator: p, denominator: q }),
            _ => None,
        }
    }
}

fn decode_layer(t: &Vec<char>, a: usize, b: usize) -> (r: Option<CloudLayer>)
    requires
        a <= b <= t@.len(),
        is_layer(t@.subrange(a as int, b as int)),
    ensures
        r == layer_of(t@.subrange(a as int, b as int)),
{
    let ghost w = t@.subrange(a as int, b as int);
    assert(w.subrange(0, 3) =~= t@.subrange(a as int, a + 3));
    assert(w.subrange(3, 6) =~= t@.subrange(a + 3, b as int));
    assert(w.skip(3) =~= t@.subrange(a + 3, b as int));
    match CloudKind::from_code_at(t, a, a + 3) {
        Some(kind) => {
            proof {
                lemma_digits_value_bound(t@.subrange(a + 3, b as int));
                lemma_pow10_small();
            }
            let h = small_digits_value(t, a + 3, b);
            Some(CloudLayer { kind, agl: h * 100 })
        },
        None => None,
    }
}

fn decode_temp(t: &Vec<char>, a: usize, b: usize) -> (r: i8)
    requires
        a <= b <= t@.len(),
        is_temp(t@.subrange(a as int, b as int)),
    ensures
        r == temp_of(t@.subrange(a as int, b as int)),
{
    let ghost w = t@.subrange(a as int, b as int);
    proof {
        lemma_pow10_small();
    }
    if b - a == 3 {
        assert(w.subrange(1, 3) =~= t@.subrange(a + 1, b as int));
        assert(w.skip(1) =~= t@.subrange(a + 1, b as int));
        proof {
            lemma_digits_value_bound(t@.subrange(a + 1, b as int));
        }
        let v = small_digits_value(t, a + 1, b) as i8;
        -v
    } else {
        proof {
            lemma_digits_value_bound(w);
        }
        small_digits_value(t, a, b) as i8
    }
}

fn decode_temp_dew(t: &Vec<char>, a: usize, b: usize) -> (r: (i8, i8))
    requires
        a <= b <= t@.len(),
        is_temp_dew(t@.subrange(a as int, b as int)),
    ensures
        r == temp_dew_of(t@.subrange(a as int, b as int)),
{
    let ghost w = t@.subrange(a as int, b as int);
    let k = find_slash(t, a, b);
    assert(w.subrange(0, k - a) =~= t@.subrange(a as int, k as int));
    assert(w.take(k - a) =~= t@.subrange(a as int, k as int));
    assert(w.subrange(k - a + 1, w.len() as int) =~= t@.subrange(k + 1, b as int));
    assert(w.skip(k - a + 1) =~= t@.subrange(k + 1, b as int));
    (decode_temp(t, a, k), decode_temp(t, k + 1, b))
}

fn decode_altimeter(t: &Vec<char>, a: usize, b: usize) -> (r: u16)
    requires
        a <= b <= t@.len(),
        is_altimeter(t@.subrange(a as int, b as int)),
    ensures
        r == altimeter_of(t@.subrange(a as int, b as int)),
{
    let ghost w = t@.subrange(a as int, b as int);
    assert(w.subrange(1, 5) =~= t@.subrange(a + 1, b as int));
    assert(w.skip(1) =~= t@.subrange(a + 1, b as int));
    proof {
        lemma_digits_value_bound(t@.subrange(a + 1, b as int));
        lemma_pow10_small();
    }
    small_digits_value(t, a + 1, b) as u16
}

fn is_station_type_at(t: &Vec<char>, a: usize, b: usize) -> (r: bool)
    requires
        a <= b <= t@.len(),
    ensures
        r == is_station_type(t@.subrange(a as int, b as int)),
{
    b - a == 3 && t[a] == 'A' && t[a + 1] == 'O' && '0' <= t[a + 2] && t[a + 2] <= '9'
}

fn is_temp_breakdown_at(t: &Vec<char>, a: usize, b: usize) -> (r: bool)
    requires
        a <= b <= t@.len(),
    ensures
        r == is_temp_breakdown(t@.subrange(a as int, b as int)),
{
    let ghost w = t@.subrange(a as int, b as int);
    if b - a != 9 {
        return false;
    }
    assert(w.subrange(2, 5) =~= t@.subrange(a + 2, a + 5));
    assert(w.subrange(6, 9) =~= t@.subrange(a + 6, b as int));
    t[a] == 'T' && (t[a + 1] == '0' || t[a + 1] == '1') && digits_at(t, a + 2, a + 5) && (t[a + 5]
        == '0' || t[a + 5] == '1') && digits_at(t, a + 6, b)
}

fn decode_tenths(t: &Vec<char>, a: usize) -> (r: i16)
    requires
        a + 4 <= t.len(),
        all_digits(t@.subrange(a + 1, a + 4)),
    ensures
        r == tenths_of(t@[a as int], t@.subrange(a + 1, a + 4)),
{
    proof {
        lemma_digits_value_bound(t@.subrange(a + 1, a + 4));
        lemma_pow10_small();
    }
    let v = small_digits_value(t, a + 1, a + 4) as i16;
    if t[a] == '1' {
        -v
    } else {
        v
    }
}

fn decode_breakdown(t: &Vec<char>, a: usize, b: usize) -> (r: TempBreakdown)
    requires
        a <= b <= t@.len(),
        is_temp_breakdown(t@.subrange(a as int, b as int)),
    ensures
        r == breakdown_of(t@.subrange(a as int, b as int)),
{
    let ghost w = t@.subrange(a as int, b as int);
    assert(w.subrange(2, 5) =~= t@.subrange(a + 2, a + 5));
    assert(w.subrange(6, 9) =~= t@.subrange(a + 6, b as int));
    TempBreakdown { temp: decode_tenths(t, a + 1), dewpoint: decode_tenths(t, a + 5) }
}

} // verus!

verus! {

/// Collects decoded fields until the whole report has been read.
///
/// A report has a set of required elements, so the values are kept, each
/// possibly absent, until every group has been decoded.
struct MetarBuilder {
    station: Option<String>,
    observation_time: Option<String>,
    automated_report: bool,
    wind: Option<Wind>,
    visibility: Option<Visibility>,
    clouds: Option<Clouds>,
    temp: Option<i8>,
    dewpoint: Option<i8>,
    altimeter: Option<u16>,
    remarks: Option<Remarks>,
}

impl View for MetarBuilder {
    type V = Accum;

    closed spec fn view(&self) -> Accum {
        Accum {
            station: match self.station {
                Some(s) => Some(s@),
                None => None,
            },
            observation_time: match self.observation_time {
                Some(s) => Some(s@),
                None => None,
            },
            automated_report: self.automated_report,
            wind: self.wind,
            visibility: self.visibility,
            clouds: match self.clouds {
                Some(c) => Some(c@),
                None => None,
            },
            temp: self.temp,
            dewpoint: self.dewpoint,
            altimeter: self.altimeter,
            remarks: match self.remarks {
                Some(r) => Some(r@),
                None => None,
            },
        }
    }
}

impl MetarBuilder {
    fn new() -> (r: MetarBuilder)
        ensures
            r@ == empty_accum(),
    {
        MetarBuilder {
            station: None,
            observation_time: None,
            automated_report: false,
            wind: None,
            visibility: None,
            clouds: None,
            temp: None,
            dewpoint: None,
            altimeter: None,
            remarks: None,
        }
    }

    fn set_station(&mut self, station: String)
        ensures
            final(self)@ == (Accum { station: Some(station@), ..old(self)@ }),
    {
        self.station = Some(station);
    }

    fn set_observation_time(&mut self, observation_time: String)
        ensures
            final(self)@ == (Accum { observation_time: Some(observation_time@), ..old(self)@ }),
    {
        self.observation_time = Some(observation_time);
    }

    fn set_automated_report(&mut self, automated_report: bool)
        ensures
            final(self)@ == (Accum { automated_report, ..old(self)@ }),
    {
        self.automated_report = automated_report;
    }

    fn set_wind(&mut self, wind: Wind)
        ensures
            final(self)@ == (Accum { wind: Some(wind), ..old(self)@ }),
    {
        self.wind = Some(wind);
    }

    fn set_visibility(&mut self, visibility: Visibility)
        ensures
            final(self)@ == (Accum { visibility: Some(visibility), ..old(self)@ }),
    {
        self.visibility = Some(visibility);
    }

    fn set_clouds(&mut self, clouds: Clouds)
        ensures
            final(self)@ == (Accum { clouds: Some(clouds@), ..old(self)@ }),
    {
        self.clouds = Some(clouds);
    }

    /// Appends a layer to the layers recorded so far.
    fn add_cloud_layer(&mut self, layer: CloudLayer)
        ensures
            final(self)@ == (Accum {
                clouds: Some(CloudsView::Layers(layers_so_far(old(self)@.clouds).push(layer))),
                ..old(self)@
            }),
    {
        let mut layers = match self.clouds.take() {
            Some(Clouds::Layers(v)) => v,
            _ => Vec::new(),
        };
        layers.push(layer);
        self.set_clouds(Clouds::Layers(layers));
    }

    fn set_temp(&mut self, temp: i8)
        ensures
            final(self)@ == (Accum { temp: Some(temp), ..old(self)@ }),
    {
        self.temp = Some(temp);
    }

    fn set_dewpoint(&mut self, dewpoint: i8)
        ensures
            final(self)@ == (Accum { dewpoint: Some(dewpoint), ..old(self)@ }),
    {
        self.dewpoint = Some(dewpoint);
    }

    fn set_altimeter(&mut self, altimeter: u16)
        ensures
            final(self)@ == (Accum { altimeter: Some(altimeter), ..old(self)@ }),
    {
        self.altimeter = Some(altimeter);
    }

    fn set_remarks(&mut self, remarks: Remarks)
        ensures
            final(self)@ == (Accum { remarks: Some(remarks@), ..old(self)@ }),
    {
        self.remarks = Some(remarks);
    }

    /// Requires an element to be present, failing with the element's name
    /// when it is not.
    fn required<T>(param: Option<T>, name: Element) -> (r: Result<T, ParseError>)
        ensures
            r == match param {
                Some(x) => Ok::<T, ParseError>(x),
                None => Err(ParseError::MissingElement(name)),
            },
    {
        match param {
            Some(x) => Ok(x),
            None => Err(ParseError::MissingElement(name)),
        }
    }

    fn build(self) -> (r: Result<Metar, ParseError>)
        ensures
            match r {
                Ok(m) => finish(self@) == Ok::<MetarView, Element>(m@),
                Err(e) => finish(self@) matches Err(el) && e == ParseError::MissingElement(el),
            },
    {
        let station = match Self::required(self.station, Element::Station) {
            Ok(x) => x,
            Err(e) => return Err(e),
        };
        let observation_time = match Self::required(self.observation_time, Element::ObservationTime) {
            Ok(x) => x,
            Err(e) => return Err(e),
        };
        let wind = match Self::required(self.wind, Element::Wind) {
            Ok(x) => x,
            Err(e) => return Err(e),
        };
        let visibility = match Self::required(self.visibility, Element::Visibility) {
            Ok(x) => x,
            Err(e) => return Err(e),
        };
        let temp = match Self::required(self.temp, Element::Temperature) {
            Ok(x) => x,
            Err(e) => return Err(e),
        };
        let dewpoint = match Self::required(self.dewpoint, Element::Dewpoint) {
            Ok(x) => x,
            Err(e) => return Err(e),
        };
        let clouds = match self.clouds {
            Some(c) => c,
            None => Clouds::Clear,
        };
        Ok(
            Metar {
                station,
                observation_time,
                automated_report: self.automated_report,
                wind,
                visibility,
                clouds,
                temp,
                dewpoint,
                altimeter: self.altimeter,
                remarks: self.remarks,
            },
        )
    }

    /// Records one remark token, when the remarks keyword has been seen.
    fn add_remark(&mut self, s: &str, t: &Vec<char>, a: usize, b: usize)
        requires
            t@ == s@,
            a <= b <= t@.len(),
        ensures
            final(self)@ == match old(self)@.remarks {
                Some(r) => Accum {
                    remarks: Some(apply_remark(r, t@.subrange(a as int, b as int))),
                    ..old(self)@
                },
                None => old(self)@,
            },
    {
        let ghost w = t@.subrange(a as int, b as int);
        match self.remarks.take() {
            Some(r) => {
                let mut r = r;
                if is_station_type_at(t, a, b) {
                    let code = s.substring_char(a, b).to_owned();
                    r.station_type = Some(code);
                } else if is_temp_breakdown_at(t, a, b) {
                    r.temp_breakdown = Some(decode_breakdown(t, a, b));
                }
                self.set_remarks(r);
            },
            None => {},
        }
    }

    /// Decodes one matched group and records it.
    fn record(&mut self, s: &str, t: &Vec<char>, p: Pair) -> (r: Result<(), ParseError>)
        requires
            t@ == s@,
            p.start < p.end <= t@.len(),
            has_shape(t@.subrange(p.start as int, p.end as int), p.rule),
        ensures
            match r {
                Ok(_) => step(old(self)@, p.rule, t@.subrange(p.start as int, p.end as int))
                    == Ok::<Accum, Rule>(final(self)@),
                Err(e) => step(old(self)@, p.rule, t@.subrange(p.start as int, p.end as int)) matches Err(
                    g,
                ) && e == ParseError::Unknown(g),
            },
    {
        let (a, b) = (p.start, p.end);
        match p.rule {
            Rule::Station => {
                self.set_station(s.substring_char(a, b).to_owned());
            },
            Rule::ObservationTime => {
                self.set_observation_time(s.substring_char(a, b).to_owned());
            },
            Rule::AutoKw => {
                self.set_automated_report(true);
            },
            Rule::Wind => {
                self.set_wind(decode_wind(t, a, b));
            },
            Rule::Visibility => {
                match decode_visibility(t, a, b) {
                    Some(v) => self.set_visibility(v),
                    None => return Err(ParseError::Unknown(Rule::Visibility)),
                }
            },
            Rule::CloudsClear => {
                self.set_clouds(Clouds::Clear);
            },
            Rule::CloudLayer => {
                match decode_layer(t, a, b) {
                    Some(l) => self.add_cloud_layer(l),
                    None => return Err(ParseError::Unknown(Rule::CloudLayer)),
                }
            },
            Rule::TempDew => {
                let (temp, dewpoint) = decode_temp_dew(t, a, b);
                self.set_temp(temp);
                self.set_dewpoint(dewpoint);
            },
            Rule::Altimeter => {
                self.set_altimeter(decode_altimeter(t, a, b));
            },
            Rule::RemarksKw => {
                self.set_remarks(Remarks { station_type: None, temp_breakdown: None });
            },
            Rule::Remark => {
                self.add_remark(s, t, a, b);
            },
            Rule::EndOfInput => {},
        }
        Ok(())
    }
}

/// Decodes the report `s`.
///
/// Fails with `MalformedInput` where `s` does not match the grammar, and with
/// `MissingElement` where the visibility group, which the grammar leaves
/// optional, is absent. Every group that the grammar matches decodes, so
/// `Unknown` does not arise here.
pub fn parse_metar(s: &str) -> (r: Result<Metar, ParseError>)
    ensures
        match r {
            Ok(m) => decode(s@) == Ok::<MetarView, ParseError>(m@),
            Err(e) => decode(s@) == Err::<MetarView, ParseError>(e),
        },
        !(r matches Err(ParseError::Unknown(_))),
{
    let t = chars_of(s);
    let n = t.len();
    proof {
        assert(s@.len() == n);
        crate::guarantees::lemma_decode_never_unknown(s@);
    }
    let pairs = match MetarParser::parse_chars(&t) {
        Ok(v) => v,
        Err(m) => return Err(ParseError::MalformedInput(m)),
    };
    let mut builder = MetarBuilder::new();
    match record_all(&mut builder, s, &t, &pairs) {
        Ok(_) => {},
        Err(e) => return Err(e),
    }
    builder.build()
}

/// Decodes and records every matched group in order, stopping at the first
/// that cannot be decoded.
fn record_all(builder: &mut MetarBuilder, s: &str, t: &Vec<char>, pairs: &Vec<Pair>) -> (r: Result<
    (),
    ParseError,
>)
    requires
        t@ == s@,
        shaped(t@, pairs@),
        old(builder)@ == empty_accum(),
    ensures
        match r {
            Ok(_) => accumulate(s@, pairs@, pairs@.len() as int) == Ok::<Accum, Rule>(final(builder)@),
            Err(e) => accumulate(s@, pairs@, pairs@.len() as int) matches Err(g) && e
                == ParseError::Unknown(g),
        },
{
    let mut x: usize = 0;
    while x < pairs.len()
        invariant
            t@ == s@,
            x <= pairs@.len(),
            shaped(t@, pairs@),
            accumulate(s@, pairs@, x as int) == Ok::<Accum, Rule>(builder@),
        decreases pairs@.len() - x,
    {
        let p = pairs[x];
        assert(p == pairs@[x as int]);
        match builder.record(s, t, p) {
            Ok(_) => {},
            Err(e) => {
                proof {
                    lemma_accumulate_stops(s@, pairs@, x as int + 1, pairs@.len() as int);
                }
                return Err(e);
            },
        }
        x = x + 1;
    }
    Ok(())
}

/// Once a group fails to decode, the failure stands for every longer prefix.
proof fn lemma_accumulate_stops(s: Seq<char>, v: Seq<Pair>, n: int, m: int)
    requires
        0 < n <= m,
        accumulate(s, v, n) is Err,
    ensures
        accumulate(s, v, m) == accumulate(s, v, n),
    decreases m - n,
{
    if m > n {
        lemma_accumulate_stops(s, v, n, m - 1);
    }
}

impl Visibility {
    /// Decodes a visibility group such as `10SM` or `1/2SM`; `None` where the
    /// text is not a visibility group or a number does not fit in a `u32`.
    pub fn decode(s: &str) -> (r: Option<Visibility>)
        ensures
            r == (if is_visibility(s@) {
                visibility_of(s@)
            } else {
                None
            }),
    {
        let t = chars_of(s);
        assert(t@.subrange(0, t@.len() as int) =~= s@);
        if is_visibility_at(&t, 0, t.len()) {
            decode_visibility(&t, 0, t.len())
        } else {
            None
        }
    }
}

impl core::str::FromStr for Visibility {
    type Err = ParseError;

    fn from_str(s: &str) -> (r: Result<Visibility, ParseError>)
        ensures
            r == match (if is_visibility(s@) {
                visibility_of(s@)
            } else {
                None
            }) {
                Some(v) => Ok::<Visibility, ParseError>(v),
                None => Err::<Visibility, ParseError>(ParseError::Unknown(Rule::Visibility)),
            },
    {
        match Visibility::decode(s) {
            Some(v) => Ok(v),
            None => Err(ParseError::Unknown(Rule::Visibility)),
        }
    }
}

} // verus!
