//! Properties of decoding that relate the grammar, the field decoders and the
//! builder, and the canonical text of each field: the text that decodes back
//! to a given value.
use vstd::prelude::*;

use crate::grammar::{
    classify, classify_body, is_altimeter, is_layer, is_temp_dew, is_wind, lemma_slash_index,
    parse_groups, words, Pair, Rule,
};
use crate::metar::{
    kind_of_code, CloudKind, CloudLayer, CloudsView, TempBreakdown, Visibility, Wind,
};
use crate::text::{all_digits, digits_of, lemma_digits_of, lemma_pow10_small, pow10};
use crate::parser::{
    accumulate, altimeter_of, breakdown_of, decode, finish, is_temp_breakdown, layer_of, step,
    temp_dew_of, u32_of, visibility_of, wind_of, Accum, ParseError,
};

verus! {

/// The text of the matched group `p` of the report `s`.
pub open spec fn text_of(s: Seq<char>, p: Pair) -> Seq<char> {
    s.subrange(p.start as int, p.end as int)
}

/// Some group among the first `n` of `v` has kind `rule`.
pub open spec fn has_group(v: Seq<Pair>, n: int, rule: Rule) -> bool {
    exists|x: int| 0 <= x < n && x < v.len() && #[trigger] v[x].rule == rule
}

/// Each mandatory field recorded in `acc` was decoded from one of the first
/// `n` groups of `v`, of the matching kind.
pub open spec fn recorded_from(s: Seq<char>, v: Seq<Pair>, n: int, acc: Accum) -> bool {
    &&& (acc.station matches Some(st) ==> exists|x: int|
        0 <= x < n && #[trigger] v[x].rule == Rule::Station && st == text_of(s, v[x]))
    &&& (acc.observation_time matches Some(ot) ==> exists|x: int|
        0 <= x < n && #[trigger] v[x].rule == Rule::ObservationTime && ot == text_of(s, v[x]))
    &&& (acc.wind matches Some(wd) ==> exists|x: int|
        0 <= x < n && #[trigger] v[x].rule == Rule::Wind && wd == wind_of(text_of(s, v[x])))
    &&& (acc.visibility matches Some(vi) ==> exists|x: int|
        0 <= x < n && #[trigger] v[x].rule == Rule::Visibility && Some(vi) == visibility_of(
            text_of(s, v[x]),
        ))
    &&& (acc.temp is Some <==> acc.dewpoint is Some)
    &&& (acc.temp is Some ==> exists|x: int|
        0 <= x < n && #[trigger] v[x].rule == Rule::TempDew && (
        acc.temp->Some_0,
        acc.dewpoint->Some_0,
        ) == temp_dew_of(text_of(s, v[x])))
}

proof fn lemma_recorded_from(s: Seq<char>, v: Seq<Pair>, n: int)
    requires
        0 <= n <= v.len(),
        accumulate(s, v, n) is Ok,
    ensures
        recorded_from(s, v, n, accumulate(s, v, n)->Ok_0),
    decreases n,
{
    if n > 0 {
        lemma_recorded_from(s, v, n - 1);
        let acc = accumulate(s, v, n - 1)->Ok_0;
        let y = n - 1;
        let w = text_of(s, v[y]);
        assert(accumulate(s, v, n) == step(acc, v[y].rule, w));
        let next = accumulate(s, v, n)->Ok_0;
        if next.station is Some && next.station != acc.station {
            assert(v[y].rule == Rule::Station && next.station->Some_0 == text_of(s, v[y]));
        }
        if next.observation_time is Some && next.observation_time != acc.observation_time {
            assert(v[y].rule == Rule::ObservationTime);
        }
        if next.wind is Some && next.wind != acc.wind {
            assert(v[y].rule == Rule::Wind);
        }
        if next.visibility is Some && next.visibility != acc.visibility {
            assert(v[y].rule == Rule::Visibility);
        }
        if next.temp is Some && (next.temp != acc.temp || next.dewpoint != acc.dewpoint) {
            assert(v[y].rule == Rule::TempDew);
        }
    }
}

/// Every mandatory element of a decoded report comes from the report's own
/// text: the station and observation time are the texts of a station and an
/// observation time group, and the wind, visibility, temperature and dewpoint
/// were decoded from a wind, a visibility and a temperature/dewpoint group.
/// None of them is a placeholder.
pub proof fn lemma_mandatory_fields_from_groups(s: Seq<char>)
    requires
        decode(s) is Ok,
    ensures
        parse_groups(s) is Ok,
        ({
            let v = parse_groups(s)->Ok_0;
            let m = decode(s)->Ok_0;
            &&& exists|x: int|
                0 <= x < v.len() && #[trigger] v[x].rule == Rule::Station && m.station
                    == text_of(s, v[x])
            &&& exists|x: int|
                0 <= x < v.len() && #[trigger] v[x].rule == Rule::ObservationTime
                    && m.observation_time == text_of(s, v[x])
            &&& exists|x: int|
                0 <= x < v.len() && #[trigger] v[x].rule == Rule::Wind && m.wind == wind_of(
                    text_of(s, v[x]),
                )
            &&& exists|x: int|
                0 <= x < v.len() && #[trigger] v[x].rule == Rule::Visibility && Some(m.visibility)
                    == visibility_of(text_of(s, v[x]))
            &&& exists|x: int|
                0 <= x < v.len() && #[trigger] v[x].rule == Rule::TempDew && (m.temp, m.dewpoint)
                    == temp_dew_of(text_of(s, v[x]))
        }),
{
    let v = parse_groups(s)->Ok_0;
    lemma_recorded_from(s, v, v.len() as int);
    let acc = accumulate(s, v, v.len() as int)->Ok_0;
    assert(finish(acc) is Ok);
}

/// Every visibility and cloud layer group among the groups `v` of the report
/// `s` can be decoded: its numbers fit and its cloud kind code is known.
pub open spec fn groups_decode(s: Seq<char>, v: Seq<Pair>) -> bool {
    forall|x: int|
        0 <= x < v.len() ==> {
            &&& (#[trigger] v[x].rule == Rule::Visibility ==> visibility_of(text_of(s, v[x])) is Some)
            &&& (v[x].rule == Rule::CloudLayer ==> layer_of(text_of(s, v[x])) is Some)
        }
}

proof fn lemma_accumulate_ok(s: Seq<char>, v: Seq<Pair>, n: int)
    requires
        0 <= n <= v.len(),
        groups_decode(s, v),
    ensures
        accumulate(s, v, n) is Ok,
        ({
            let acc = accumulate(s, v, n)->Ok_0;
            forall|x: int|
                0 <= x < n ==> {
                    &&& (#[trigger] v[x].rule == Rule::Station ==> acc.station is Some)
                    &&& (v[x].rule == Rule::ObservationTime ==> acc.observation_time is Some)
                    &&& (v[x].rule == Rule::Wind ==> acc.wind is Some)
                    &&& (v[x].rule == Rule::Visibility ==> acc.visibility is Some)
                    &&& (v[x].rule == Rule::TempDew ==> acc.temp is Some && acc.dewpoint is Some)
                }
        }),
    decreases n,
{
    if n > 0 {
        lemma_accumulate_ok(s, v, n - 1);
        let y = n - 1;
        assert(v[y].rule == Rule::Visibility ==> visibility_of(text_of(s, v[y])) is Some);
    }
}

proof fn lemma_body_has_temp_dew(w: Seq<Seq<char>>, i: int)
    requires
        classify_body(w, i) is Ok,
    ensures
        exists|x: int|
            0 <= x < classify_body(w, i)->Ok_0.len() && #[trigger] classify_body(w, i)->Ok_0[x]
                == Rule::TempDew,
{
    let n = w.len() as int;
    let vis = i < n && crate::grammar::is_visibility(w[i]);
    let j: int = if vis { i + 1 } else { i };
    let clear = j < n && crate::grammar::is_clear(w[j]);
    let k: int = if clear { j + 1 } else { crate::grammar::layers_end(w, j) };
    let clouds = if clear {
        seq![Rule::CloudsClear]
    } else {
        Seq::new((k - j) as nat, |_x: int| Rule::CloudLayer)
    };
    let head = crate::grammar::opt_rule(vis, Rule::Visibility) + clouds;
    let rest = crate::grammar::classify_trailer(w, k + 1)->Ok_0;
    assert(classify_body(w, i)->Ok_0 == head + seq![Rule::TempDew] + rest);
    assert(classify_body(w, i)->Ok_0[head.len() as int] == Rule::TempDew);
}

/// The grammar accepts no report without a station, an observation time, a
/// wind and a temperature/dewpoint group.
proof fn lemma_grammar_mandatory(s: Seq<char>)
    requires
        parse_groups(s) is Ok,
    ensures
        ({
            let v = parse_groups(s)->Ok_0;
            &&& has_group(v, v.len() as int, Rule::Station)
            &&& has_group(v, v.len() as int, Rule::ObservationTime)
            &&& has_group(v, v.len() as int, Rule::Wind)
            &&& has_group(v, v.len() as int, Rule::TempDew)
        }),
{
    let w = words(s);
    let v = parse_groups(s)->Ok_0;
    let tags = classify(w)->Ok_0;
    let auto = w.len() > 2 && crate::grammar::is_auto(w[2]);
    let i: int = if auto { 3 } else { 2 };
    let front = seq![Rule::Station, Rule::ObservationTime] + crate::grammar::opt_rule(auto, Rule::AutoKw)
        + seq![Rule::Wind];
    let body = classify_body(w, i + 1)->Ok_0;
    assert(tags == front + body);
    assert(v[0].rule == Rule::Station);
    assert(v[1].rule == Rule::ObservationTime);
    assert(v[front.len() - 1].rule == Rule::Wind);
    lemma_body_has_temp_dew(w, i + 1);
    let x = choose|x: int| 0 <= x < body.len() && #[trigger] body[x] == Rule::TempDew;
    assert(v[front.len() + x].rule == Rule::TempDew);
}

/// A report that matches the grammar and holds every mandatory group (the
/// grammar requires all of them but visibility) decodes successfully.
pub proof fn lemma_conforming_report_decodes(s: Seq<char>)
    requires
        parse_groups(s) is Ok,
        has_group(parse_groups(s)->Ok_0, parse_groups(s)->Ok_0.len() as int, Rule::Visibility),
        s.len() <= usize::MAX,
    ensures
        decode(s) is Ok,
{
    let v = parse_groups(s)->Ok_0;
    crate::round_trip::lemma_matched_groups_decode(s);
    lemma_grammar_mandatory(s);
    lemma_accumulate_ok(s, v, v.len() as int);
    let acc = accumulate(s, v, v.len() as int)->Ok_0;
    let a = choose|x: int| 0 <= x < v.len() && x < v.len() && #[trigger] v[x].rule == Rule::Station;
    let b = choose|x: int| 0 <= x < v.len() && x < v.len() && #[trigger] v[x].rule == Rule::ObservationTime;
    let c = choose|x: int| 0 <= x < v.len() && x < v.len() && #[trigger] v[x].rule == Rule::Wind;
    let d = choose|x: int| 0 <= x < v.len() && x < v.len() && #[trigger] v[x].rule == Rule::Visibility;
    let e = choose|x: int| 0 <= x < v.len() && x < v.len() && #[trigger] v[x].rule == Rule::TempDew;
    assert(acc.station is Some && acc.observation_time is Some && acc.wind is Some);
    assert(acc.visibility is Some && acc.temp is Some && acc.dewpoint is Some);
    assert(finish(acc) is Ok);
}

/// A report lacking a group of a mandatory kind (station, observation time,
/// wind, visibility or temperature/dewpoint) never decodes: it fails as
/// malformed input or with a missing element.
pub proof fn lemma_missing_mandatory_group_fails(s: Seq<char>, rule: Rule)
    requires
        s.len() <= usize::MAX,
        rule == Rule::Station || rule == Rule::ObservationTime || rule == Rule::Wind || rule
            == Rule::Visibility || rule == Rule::TempDew,
        parse_groups(s) is Ok ==> !has_group(
            parse_groups(s)->Ok_0,
            parse_groups(s)->Ok_0.len() as int,
            rule,
        ),
    ensures
        decode(s) matches Err(ParseError::MalformedInput(_)) || decode(s) matches Err(
            ParseError::MissingElement(_),
        ),
        parse_groups(s) is Ok ==> (decode(s) matches Err(ParseError::MissingElement(_))),
        parse_groups(s) is Err ==> (decode(s) matches Err(ParseError::MalformedInput(_))),
{
    if decode(s) is Ok {
        lemma_mandatory_fields_from_groups(s);
    }
    if parse_groups(s) is Ok {
        let v = parse_groups(s)->Ok_0;
        crate::round_trip::lemma_matched_groups_decode(s);
        lemma_accumulate_ok(s, v, v.len() as int);
    }
}

/// The canonical text of a wind group.
pub open spec fn wind_text(wd: Wind) -> Seq<char> {
    digits_of(wd.direction as nat, 3) + digits_of(wd.speed as nat, 2) + match wd.gust_speed {
        Some(g) => seq!['G'] + digits_of(g as nat, 2),
        None => seq![],
    } + seq!['K', 'T']
}

/// A wind whose direction has at most three digits and whose speeds have at
/// most two is written as a wind group that decodes back to it.
pub proof fn lemma_wind_round_trip(wd: Wind)
    requires
        wd.direction < 1000,
        wd.speed < 100,
        wd.gust_speed matches Some(g) ==> g < 100,
    ensures
        is_wind(wind_text(wd)),
        wind_of(wind_text(wd)) == wd,
{
    lemma_pow10_small();
    let d = digits_of(wd.direction as nat, 3);
    let sp = digits_of(wd.speed as nat, 2);
    lemma_digits_of(wd.direction as nat, 3);
    lemma_digits_of(wd.speed as nat, 2);
    let w = wind_text(wd);
    assert(w.subrange(0, 3) =~= d);
    assert(w.subrange(3, 5) =~= sp);
    assert(w.take(5) =~= d + sp);
    assert(all_digits(d + sp)) by {
        assert forall|i: int| 0 <= i < 5 implies crate::text::is_digit(#[trigger] (d + sp)[i]) by {
            if i < 3 {
                assert((d + sp)[i] == d[i]);
            } else {
                assert((d + sp)[i] == sp[i - 3]);
            }
        }
    }
    match wd.gust_speed {
        Some(g) => {
            lemma_digits_of(g as nat, 2);
            assert(w.subrange(6, 8) =~= digits_of(g as nat, 2));
        },
        None => {},
    }
}

/// The canonical text of a whole-degree temperature: two digits, with `M`
/// in front below zero.
pub open spec fn temp_text(t: i8) -> Seq<char> {
    if t < 0 {
        seq!['M'] + digits_of((-t) as nat, 2)
    } else {
        digits_of(t as nat, 2)
    }
}

/// The canonical text of a temperature/dewpoint group.
pub open spec fn temp_dew_text(tp: i8, dp: i8) -> Seq<char> {
    temp_text(tp) + seq!['/'] + temp_text(dp)
}

proof fn lemma_temp_text(t: i8)
    requires
        -100 < t < 100,
    ensures
        crate::grammar::is_temp(temp_text(t)),
        crate::parser::temp_of(temp_text(t)) == t,
        forall|i: int| 0 <= i < temp_text(t).len() ==> #[trigger] temp_text(t)[i] != '/',
{
    lemma_pow10_small();
    if t < 0 {
        lemma_digits_of((-t) as nat, 2);
        let x = temp_text(t);
        assert(x.subrange(1, 3) =~= digits_of((-t) as nat, 2));
        assert(x.skip(1) =~= digits_of((-t) as nat, 2));
        assert forall|i: int| 0 <= i < x.len() implies #[trigger] x[i] != '/' by {
            if i > 0 {
                assert(x[i] == digits_of((-t) as nat, 2)[i - 1]);
            }
        }
    } else {
        lemma_digits_of(t as nat, 2);
    }
}

/// A temperature and dewpoint of at most two digits each are written as a
/// temperature/dewpoint group that decodes back to them.
pub proof fn lemma_temp_dew_round_trip(tp: i8, dp: i8)
    requires
        -100 < tp < 100,
        -100 < dp < 100,
    ensures
        is_temp_dew(temp_dew_text(tp, dp)),
        temp_dew_of(temp_dew_text(tp, dp)) == (tp, dp),
{
    lemma_temp_text(tp);
    lemma_temp_text(dp);
    let a = temp_text(tp);
    let w = temp_dew_text(tp, dp);
    let k = a.len() as int;
    assert forall|j: int| 0 <= j < k implies w[j] != '/' by {
        assert(w[j] == a[j]);
    }
    lemma_slash_index(w, k);
    assert(w.take(k) =~= a);
    assert(w.subrange(0, k) =~= a);
    assert(w.skip(k + 1) =~= temp_text(dp));
    assert(w.subrange(k + 1, w.len() as int) =~= temp_text(dp));
}

/// The canonical text of an altimeter group.
pub open spec fn altimeter_text(a: u16) -> Seq<char> {
    seq!['A'] + digits_of(a as nat, 4)
}

/// An altimeter setting of at most four digits is written as an altimeter
/// group that decodes back to it.
pub proof fn lemma_altimeter_round_trip(a: u16)
    requires
        a < 10000,
    ensures
        is_altimeter(altimeter_text(a)),
        altimeter_of(altimeter_text(a)) == a,
{
    lemma_pow10_small();
    lemma_digits_of(a as nat, 4);
    let w = altimeter_text(a);
    assert(w.skip(1) =~= digits_of(a as nat, 4));
    assert(w.subrange(1, 5) =~= digits_of(a as nat, 4));
}

/// The three-letter code of a cloud kind.
pub open spec fn kind_code(k: CloudKind) -> Seq<char> {
    match k {
        CloudKind::Few => seq!['F', 'E', 'W'],
        CloudKind::Scattered => seq!['S', 'C', 'T'],
        CloudKind::Broken => seq!['B', 'K', 'N'],
        CloudKind::Overcast => seq!['O', 'V', 'C'],
    }
}

/// The canonical text of a cloud layer group: its kind code and its height
/// in hundreds of feet.
pub open spec fn layer_text(l: CloudLayer) -> Seq<char> {
    kind_code(l.kind) + digits_of((l.agl / 100) as nat, 3)
}

/// A layer at a whole number of hundreds of feet below 100000 feet is written
/// as a cloud layer group that decodes back to it.
pub proof fn lemma_layer_round_trip(l: CloudLayer)
    requires
        l.agl % 100 == 0,
        l.agl < 100000,
    ensures
        is_layer(layer_text(l)),
        layer_of(layer_text(l)) == Some(l),
{
    lemma_pow10_small();
    let h = (l.agl / 100) as nat;
    lemma_digits_of(h, 3);
    let w = layer_text(l);
    let c = kind_code(l.kind);
    assert(c.len() == 3);
    assert(w.subrange(0, 3) =~= c);
    assert(w.skip(3) =~= digits_of(h, 3));
    assert(w.subrange(3, 6) =~= digits_of(h, 3));
    assert(kind_of_code(c) == Some(l.kind));
    assert(h * 100 == l.agl);
}

/// The number of decimal digits needed to write `n` (at least one).
pub open spec fn width(n: nat) -> nat
    decreases n,
{
    if n < 10 {
        1
    } else {
        1 + width(n / 10)
    }
}

proof fn lemma_width(n: nat)
    ensures
        n < pow10(width(n)),
    decreases n,
{
    if n >= 10 {
        lemma_width(n / 10);
        let p = pow10(width(n / 10));
        assert(pow10(width(n)) == 10 * p);
        assert(n < 10 * p) by (nonlinear_arith)
            requires
                n / 10 < p,
                n >= 10,
        ;
    } else {
        reveal_with_fuel(pow10, 2);
    }
}

proof fn lemma_width_at_most_nine(n: nat)
    requires
        n < 1_000_000_000,
    ensures
        width(n) <= 9,
{
    reveal_with_fuel(pow10, 10);
    lemma_width_le(n, 9);
}

proof fn lemma_width_le(n: nat, k: nat)
    requires
        k >= 1,
        n < pow10(k),
    ensures
        width(n) <= k,
    decreases k,
{
    reveal_with_fuel(pow10, 10);
    if n >= 10 {
        assert(pow10(k) == 10 * pow10((k - 1) as nat));
        assert(n / 10 < pow10((k - 1) as nat)) by (nonlinear_arith)
            requires
                n < 10 * pow10((k - 1) as nat),
        ;
        if k == 1 {
            assert(false);
        } else {
            lemma_width_le(n / 10, (k - 1) as nat);
        }
    }
}

/// `n` in decimal, without leading zeros.
pub open spec fn number_text(n: nat) -> Seq<char> {
    digits_of(n, width(n))
}

proof fn lemma_number_text(n: nat)
    requires
        n <= u32::MAX,
    ensures
        number_text(n).len() == width(n),
        number_text(n).len() > 0,
        all_digits(number_text(n)),
        u32_of(number_text(n)) == Some(n as u32),
        forall|i: int| 0 <= i < number_text(n).len() ==> #[trigger] number_text(n)[i] != '/',
{
    lemma_width(n);
    lemma_digits_of(n, width(n));
    assert forall|i: int| 0 <= i < number_text(n).len() implies #[trigger] number_text(n)[i] != '/' by {
        assert(crate::text::is_digit(number_text(n)[i]));
    }
}

/// The canonical text of a visibility group: a whole number of miles, or a
/// fraction, then the unit.
pub open spec fn visibility_text(v: Visibility) -> Seq<char> {
    match v {
        Visibility::SM { numerator, denominator } => number_text(numerator as nat) + (if denominator
            == 1 {
            seq![]
        } else {
            seq!['/'] + number_text(denominator as nat)
        }) + seq!['S', 'M'],
    }
}

/// A visibility whose numbers have at most nine digits is written as a
/// visibility group that decodes back to it.
pub proof fn lemma_visibility_round_trip(v: Visibility)
    requires
        v->numerator < 1_000_000_000,
        v->denominator < 1_000_000_000,
    ensures
        crate::grammar::is_visibility(visibility_text(v)),
        visibility_of(visibility_text(v)) == Some(v),
{
    let Visibility::SM { numerator, denominator } = v;
    let a = number_text(numerator as nat);
    lemma_number_text(numerator as nat);
    lemma_width_at_most_nine(numerator as nat);
    lemma_width_at_most_nine(denominator as nat);
    let w = visibility_text(v);
    let d = w.subrange(0, w.len() - 2);
    assert(w.take(w.len() - 2) =~= d);
    if denominator == 1 {
        assert(d =~= a);
        lemma_slash_index(d, d.len() as int);
    } else {
        let b = number_text(denominator as nat);
        lemma_number_text(denominator as nat);
        assert(d =~= a + seq!['/'] + b);
        let k = a.len() as int;
        assert forall|j: int| 0 <= j < k implies d[j] != '/' by {
            assert(d[j] == a[j]);
        }
        lemma_slash_index(d, k);
        assert(d.take(k) =~= a);
        assert(d.subrange(0, k) =~= a);
        assert(d.skip(k + 1) =~= b);
        assert(d.subrange(k + 1, d.len() as int) =~= b);
    }
}

/// The sign digit and three digits of tenths of the precise temperature remark.
pub open spec fn tenths_text(t: i16) -> Seq<char> {
    if t < 0 {
        seq!['1'] + digits_of((-t) as nat, 3)
    } else {
        seq!['0'] + digits_of(t as nat, 3)
    }
}

/// The canonical precise temperature remark.
pub open spec fn breakdown_text(b: TempBreakdown) -> Seq<char> {
    seq!['T'] + tenths_text(b.temp) + tenths_text(b.dewpoint)
}

proof fn lemma_tenths_text(t: i16)
    requires
        -1000 < t < 1000,
    ensures
        tenths_text(t).len() == 4,
        crate::parser::is_sign_digit(tenths_text(t)[0]),
        all_digits(tenths_text(t).skip(1)),
        crate::parser::tenths_of(tenths_text(t)[0], tenths_text(t).skip(1)) == t,
{
    lemma_pow10_small();
    if t < 0 {
        lemma_digits_of((-t) as nat, 3);
        assert(tenths_text(t).skip(1) =~= digits_of((-t) as nat, 3));
    } else {
        lemma_digits_of(t as nat, 3);
        assert(tenths_text(t).skip(1) =~= digits_of(t as nat, 3));
    }
}

/// A temperature and dewpoint of at most three digits of tenths each are
/// written as a precise temperature remark that decodes back to them.
pub proof fn lemma_breakdown_round_trip(b: TempBreakdown)
    requires
        -1000 < b.temp < 1000,
        -1000 < b.dewpoint < 1000,
    ensures
        is_temp_breakdown(breakdown_text(b)),
        breakdown_of(breakdown_text(b)) == b,
{
    lemma_tenths_text(b.temp);
    lemma_tenths_text(b.dewpoint);
    let w = breakdown_text(b);
    let x = tenths_text(b.temp);
    let y = tenths_text(b.dewpoint);
    assert(w[1] == x[0]);
    assert(w[5] == y[0]);
    assert(w.subrange(2, 5) =~= x.skip(1));
    assert(w.subrange(6, 9) =~= y.skip(1));
}

/// Decoding never fails for want of decoding a group: every group that the
/// grammar matches can be decoded.
pub proof fn lemma_decode_never_unknown(s: Seq<char>)
    requires
        s.len() <= usize::MAX,
    ensures
        !(decode(s) matches Err(ParseError::Unknown(_))),
{
    if parse_groups(s) is Ok {
        let v = parse_groups(s)->Ok_0;
        crate::round_trip::lemma_matched_groups_decode(s);
        lemma_accumulate_ok(s, v, v.len() as int);
    }
}

proof fn lemma_has_group_step(v: Seq<Pair>, n: int, rule: Rule)
    requires
        0 < n <= v.len(),
    ensures
        has_group(v, n, rule) == (has_group(v, n - 1, rule) || v[n - 1].rule == rule),
{
    if has_group(v, n, rule) && v[n - 1].rule != rule {
        let x = choose|x: int| 0 <= x < n && x < v.len() && #[trigger] v[x].rule == rule;
        assert(0 <= x < n - 1 && x < v.len() && v[x].rule == rule);
    }
    if v[n - 1].rule == rule {
        assert(0 <= n - 1 < n && n - 1 < v.len() && v[n - 1].rule == rule);
    }
}

/// The optional fields recorded from the first `n` groups of `v` are set
/// exactly when their groups occur there.
pub open spec fn optional_from(v: Seq<Pair>, n: int, acc: Accum) -> bool {
    &&& acc.automated_report == has_group(v, n, Rule::AutoKw)
    &&& (acc.altimeter is Some) == has_group(v, n, Rule::Altimeter)
    &&& (acc.remarks is Some) == has_group(v, n, Rule::RemarksKw)
    &&& (!has_group(v, n, Rule::CloudLayer) ==> acc.clouds is None || acc.clouds == Some(
        CloudsView::Clear,
    ))
}

proof fn lemma_optional_from(s: Seq<char>, v: Seq<Pair>, n: int)
    requires
        0 <= n <= v.len(),
        accumulate(s, v, n) is Ok,
    ensures
        optional_from(v, n, accumulate(s, v, n)->Ok_0),
    decreases n,
{
    if n > 0 {
        lemma_optional_from(s, v, n - 1);
        lemma_has_group_step(v, n, Rule::AutoKw);
        lemma_has_group_step(v, n, Rule::Altimeter);
        lemma_has_group_step(v, n, Rule::RemarksKw);
        lemma_has_group_step(v, n, Rule::CloudLayer);
    }
}

/// The optional parts of a decoded report take their defaults exactly when
/// their groups are absent: the automation flag is set iff `AUTO` was
/// matched, the altimeter and the remarks are present iff their groups were
/// matched, and without any cloud layer group the clouds are clear.
pub proof fn lemma_optional_defaults(s: Seq<char>)
    requires
        decode(s) is Ok,
    ensures
        parse_groups(s) is Ok,
        ({
            let v = parse_groups(s)->Ok_0;
            let m = decode(s)->Ok_0;
            &&& m.automated_report == has_group(v, v.len() as int, Rule::AutoKw)
            &&& (m.altimeter is Some) == has_group(v, v.len() as int, Rule::Altimeter)
            &&& (m.remarks is Some) == has_group(v, v.len() as int, Rule::RemarksKw)
            &&& (!has_group(v, v.len() as int, Rule::CloudLayer) ==> m.clouds == CloudsView::Clear)
        }),
{
    let v = parse_groups(s)->Ok_0;
    lemma_optional_from(s, v, v.len() as int);
}

/// The layers decoded from the cloud layer groups among the first `n` groups
/// of `v`, in the order they were matched.
pub open spec fn layers_in(s: Seq<char>, v: Seq<Pair>, n: int) -> Seq<CloudLayer>
    decreases n,
{
    if n <= 0 {
        seq![]
    } else if v[n - 1].rule == Rule::CloudLayer {
        layers_in(s, v, n - 1).push(layer_of(text_of(s, v[n - 1]))->Some_0)
    } else {
        layers_in(s, v, n - 1)
    }
}

proof fn lemma_layers_recorded(s: Seq<char>, v: Seq<Pair>, n: int)
    requires
        0 <= n <= v.len(),
        accumulate(s, v, n) is Ok,
        !has_group(v, v.len() as int, Rule::CloudsClear),
    ensures
        ({
            let acc = accumulate(s, v, n)->Ok_0;
            if layers_in(s, v, n).len() == 0 {
                acc.clouds is None
            } else {
                acc.clouds == Some(CloudsView::Layers(layers_in(s, v, n)))
            }
        }),
    decreases n,
{
    if n > 0 {
        lemma_layers_recorded(s, v, n - 1);
        let acc0 = accumulate(s, v, n - 1)->Ok_0;
        assert(accumulate(s, v, n) == step(acc0, v[n - 1].rule, text_of(s, v[n - 1])));
        if layers_in(s, v, n - 1).len() == 0 {
            assert(layers_in(s, v, n - 1) =~= seq![]);
        }
        if v[n - 1].rule == Rule::CloudsClear {
            assert(0 <= n - 1 < v.len() && v[n - 1].rule == Rule::CloudsClear);
        }
    }
}

/// A decoded report without a clear-sky group lists exactly the layers of its
/// cloud layer groups, in input order, or is clear when it has none.
pub proof fn lemma_layers_in_order(s: Seq<char>)
    requires
        decode(s) is Ok,
        !has_group(parse_groups(s)->Ok_0, parse_groups(s)->Ok_0.len() as int, Rule::CloudsClear),
    ensures
        ({
            let v = parse_groups(s)->Ok_0;
            let ls = layers_in(s, v, v.len() as int);
            decode(s)->Ok_0.clouds == if ls.len() == 0 {
                CloudsView::Clear
            } else {
                CloudsView::Layers(ls)
            }
        }),
{
    let v = parse_groups(s)->Ok_0;
    lemma_layers_recorded(s, v, v.len() as int);
}

/// A precise temperature recorded from the first `n` groups of `v` was
/// decoded from one of them, a remark token of that shape.
pub open spec fn breakdown_from(s: Seq<char>, v: Seq<Pair>, n: int, acc: Accum) -> bool {
    acc.remarks matches Some(r) ==> (r.temp_breakdown matches Some(bd) ==> exists|x: int|
        0 <= x < n && #[trigger] v[x].rule == Rule::Remark && is_temp_breakdown(text_of(s, v[x]))
            && bd == breakdown_of(text_of(s, v[x])))
}

proof fn lemma_breakdown_from(s: Seq<char>, v: Seq<Pair>, n: int)
    requires
        0 <= n <= v.len(),
        accumulate(s, v, n) is Ok,
    ensures
        breakdown_from(s, v, n, accumulate(s, v, n)->Ok_0),
    decreases n,
{
    if n > 0 {
        lemma_breakdown_from(s, v, n - 1);
        let acc0 = accumulate(s, v, n - 1)->Ok_0;
        let w = text_of(s, v[n - 1]);
        assert(accumulate(s, v, n) == step(acc0, v[n - 1].rule, w));
        let acc = accumulate(s, v, n)->Ok_0;
        if acc.remarks is Some && acc.remarks->Some_0.temp_breakdown is Some && (acc0.remarks is None
            || acc0.remarks->Some_0.temp_breakdown != acc.remarks->Some_0.temp_breakdown) {
            assert(v[n - 1].rule == Rule::Remark && is_temp_breakdown(w));
        }
    }
}

/// The precise temperature and dewpoint of a decoded report come from a
/// remark token `T` + sign digit + three digits + sign digit + three digits:
/// the tenths that `breakdown_of` reads from it, negative where the sign
/// digit is `1`.
pub proof fn lemma_breakdown_from_token(s: Seq<char>)
    requires
        decode(s) is Ok,
        decode(s)->Ok_0.remarks matches Some(r) && r.temp_breakdown is Some,
    ensures
        parse_groups(s) is Ok,
        ({
            let v = parse_groups(s)->Ok_0;
            let bd = decode(s)->Ok_0.remarks->Some_0.temp_breakdown->Some_0;
            exists|x: int|
                0 <= x < v.len() && #[trigger] v[x].rule == Rule::Remark && is_temp_breakdown(
                    text_of(s, v[x]),
                ) && bd == breakdown_of(text_of(s, v[x]))
        }),
{
    let v = parse_groups(s)->Ok_0;
    lemma_breakdown_from(s, v, v.len() as int);
}

} // verus!
