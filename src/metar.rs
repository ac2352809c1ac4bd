//! The decoded report and the values it is made of.
use vstd::prelude::*;

use crate::parser::{decode, parse_metar, ParseError};
use crate::text::chars_of;

verus! {

/// A decoded surface weather report.
#[derive(Debug, PartialEq)]
pub struct Metar {
    /// Four-character station identifier.
    pub station: String,
    /// Day, hour and minute of the observation with its zone letter, as reported.
    pub observation_time: String,
    /// Whether the report carried the automation keyword.
    pub automated_report: bool,
    pub wind: Wind,
    pub visibility: Visibility,
    pub clouds: Clouds,
    /// Temperature in whole degrees Celsius.
    pub temp: i8,
    /// Dewpoint in whole degrees Celsius.
    pub dewpoint: i8,
    /// Altimeter setting in hundredths of an inch of mercury.
    pub altimeter: Option<u16>,
    pub remarks: Option<Remarks>,
}

/// Wind speed and direction.
#[derive(Debug, Clone, Copy, PartialEq, Eq, Structural)]
pub struct Wind {
    /// True wind direction.
    pub direction: u16,
    /// Wind speed in knots.
    pub speed: u8,
    /// Gust speed in knots, when gusts were reported.
    pub gust_speed: Option<u8>,
}

/// Prevailing visibility.
///
/// Two visibilities are equal when they give the same distance: `2/4SM`
/// equals `1/2SM`. Fractions with a zero denominator give no distance and
/// are equal only to each other.
#[derive(Debug, Clone, Copy, Eq)]
pub enum Visibility {
    /// Visibility in statute miles, as the fraction `numerator / denominator`
    /// (a whole distance has denominator 1).
    SM { numerator: u32, denominator: u32 },
}

/// `a` and `b` give the same distance, or neither gives one.
pub open spec fn same_distance(a: Visibility, b: Visibility) -> bool {
    match (a, b) {
        (
            Visibility::SM { numerator: p, denominator: q },
            Visibility::SM { numerator: x, denominator: y },
        ) => p * y == x * q && (q == 0) == (y == 0),
    }
}

impl PartialEq for Visibility {
    fn eq(&self, o: &Visibility) -> (r: bool)
        ensures
            r == same_distance(*self, *o),
    {
        match (self, o) {
            (
                Visibility::SM { numerator: p, denominator: q },
                Visibility::SM { numerator: x, denominator: y },
            ) => {
                let (p, q, x, y) = (*p as u64, *q as u64, *x as u64, *y as u64);
                assert(p * y <= u32::MAX * u32::MAX) by (nonlinear_arith)
                    requires
                        p <= u32::MAX,
                        y <= u32::MAX,
                ;
                assert(x * q <= u32::MAX * u32::MAX) by (nonlinear_arith)
                    requires
                        x <= u32::MAX,
                        q <= u32::MAX,
                ;
                let lhs = p * y;
                let rhs = x * q;
                lhs == rhs && (q == 0) == (y == 0)
            },
        }
    }
}

impl vstd::std_specs::cmp::PartialEqSpecImpl for Visibility {
    open spec fn obeys_eq_spec() -> bool {
        true
    }

    open spec fn eq_spec(&self, o: &Visibility) -> bool {
        same_distance(*self, *o)
    }
}

/// Reported cloud layers.
#[derive(Debug, Clone, PartialEq)]
pub enum Clouds {
    /// No reported clouds.
    Clear,
    /// A vector of cloud layers in the reported order.
    Layers(Vec<CloudLayer>),
}

/// A single layer of clouds.
#[derive(Debug, Clone, Copy, PartialEq, Eq, Structural)]
pub struct CloudLayer {
    /// The type of cloud layer reported.
    pub kind: CloudKind,
    /// The height of the layer above the ground, in feet.
    pub agl: u32,
}

/// A type of cloud layer.
#[derive(Debug, Clone, Copy, PartialEq, Eq, Structural)]
pub enum CloudKind {
    Few,
    Scattered,
    Broken,
    Overcast,
}

/// Supplementary data decoded from the remarks section.
#[derive(Debug, Clone, PartialEq)]
pub struct Remarks {
    /// The automated station type code (such as `AO2`), when reported.
    pub station_type: Option<String>,
    /// Temperature and dewpoint to a tenth of a degree, when reported.
    pub temp_breakdown: Option<TempBreakdown>,
}

/// Temperature and dewpoint in tenths of a degree Celsius.
#[derive(Debug, Clone, Copy, PartialEq, Eq, Structural)]
pub struct TempBreakdown {
    /// Temperature in tenths of a degree Celsius.
    pub temp: i16,
    /// Dewpoint in tenths of a degree Celsius.
    pub dewpoint: i16,
}

/// The mathematical value of [`Clouds`]: the layers become a sequence.
pub enum CloudsView {
    Clear,
    Layers(Seq<CloudLayer>),
}

/// The mathematical value of [`Remarks`].
pub struct RemarksView {
    pub station_type: Option<Seq<char>>,
    pub temp_breakdown: Option<TempBreakdown>,
}

/// The mathematical value of a [`Metar`]: text becomes character sequences.
pub struct MetarView {
    pub station: Seq<char>,
    pub observation_time: Seq<char>,
    pub automated_report: bool,
    pub wind: Wind,
    pub visibility: Visibility,
    pub clouds: CloudsView,
    pub temp: i8,
    pub dewpoint: i8,
    pub altimeter: Option<u16>,
    pub remarks: Option<RemarksView>,
}

impl View for Clouds {
    type V = CloudsView;

    open spec fn view(&self) -> CloudsView {
        match self {
            Clouds::Clear => CloudsView::Clear,
            Clouds::Layers(v) => CloudsView::Layers(v@),
        }
    }
}

impl View for Remarks {
    type V = RemarksView;

    open spec fn view(&self) -> RemarksView {
        RemarksView {
            station_type: match self.station_type {
                Some(s) => Some(s@),
                None => None,
            },
            temp_breakdown: self.temp_breakdown,
        }
    }
}

impl View for Metar {
    type V = MetarView;

    open spec fn view(&self) -> MetarView {
        MetarView {
            station: self.station@,
            observation_time: self.observation_time@,
            automated_report: self.automated_report,
            wind: self.wind,
            visibility: self.visibility,
            clouds: self.clouds@,
            temp: self.temp,
            dewpoint: self.dewpoint,
            altimeter: self.altimeter,
            remarks: match self.remarks {
                Some(r) => Some(r@),
                None => None,
            },
        }
    }
}

/// The cloud kind that a three-letter code names, if any.
pub open spec fn kind_of_code(t: Seq<char>) -> Option<CloudKind> {
    if t == seq!['B', 'K', 'N'] {
        Some(CloudKind::Broken)
    } else if t == seq!['F', 'E', 'W'] {
        Some(CloudKind::Few)
    } else if t == seq!['O', 'V', 'C'] {
        Some(CloudKind::Overcast)
    } else if t == seq!['S', 'C', 'T'] {
        Some(CloudKind::Scattered)
    } else {
        None
    }
}

impl CloudKind {
    /// Looks up the cloud kind whose code is `t[a..b]`.
    pub fn from_code_at(t: &Vec<char>, a: usize, b: usize) -> (r: Option<CloudKind>)
        requires
            a <= b <= t@.len(),
        ensures
            r == kind_of_code(t@.subrange(a as int, b as int)),
    {
        let ghost w = t@.subrange(a as int, b as int);
        if b - a != 3 {
            assert(seq!['B', 'K', 'N'].len() == 3 && seq!['F', 'E', 'W'].len() == 3);
            assert(seq!['O', 'V', 'C'].len() == 3 && seq!['S', 'C', 'T'].len() == 3);
            return None;
        }
        let (x, y, z) = (t[a], t[a + 1], t[b - 1]);
        assert(w[0] == x && w[1] == y && w[2] == z);
        if x == 'B' && y == 'K' && z == 'N' {
            assert(w =~= seq!['B', 'K', 'N']);
            Some(CloudKind::Broken)
        } else if x == 'F' && y == 'E' && z == 'W' {
            assert(w =~= seq!['F', 'E', 'W']);
            Some(CloudKind::Few)
        } else if x == 'O' && y == 'V' && z == 'C' {
            assert(w =~= seq!['O', 'V', 'C']);
            Some(CloudKind::Overcast)
        } else if x == 'S' && y == 'C' && z == 'T' {
            assert(w =~= seq!['S', 'C', 'T']);
            Some(CloudKind::Scattered)
        } else {
            None
        }
    }

    /// Looks up the cloud kind whose code is `s`.
    pub fn from_code(s: &str) -> (r: Option<CloudKind>)
        ensures
            r == kind_of_code(s@),
    {
        let t = chars_of(s);
        assert(t@.subrange(0, t@.len() as int) =~= s@);
        CloudKind::from_code_at(&t, 0, t.len())
    }
}

impl core::str::FromStr for CloudKind {
    type Err = ();

    fn from_str(s: &str) -> (r: Result<CloudKind, ()>)
        ensures
            r == match kind_of_code(s@) {
                Some(k) => Ok::<CloudKind, ()>(k),
                None => Err::<CloudKind, ()>(()),
            },
    {
        match CloudKind::from_code(s) {
            Some(k) => Ok(k),
            None => Err(()),
        }
    }
}

impl core::str::FromStr for Metar {
    type Err = ParseError;

    fn from_str(s: &str) -> (r: Result<Metar, ParseError>)
        ensures
            match r {
                Ok(m) => decode(s@) == Ok::<MetarView, ParseError>(m@),
                Err(e) => decode(s@) == Err::<MetarView, ParseError>(e),
            },
    {
        parse_metar(s)
    }
}

} // verus!
